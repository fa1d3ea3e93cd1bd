//! The configuration stream: a header chunk, then one chunk per record, each
//! chunk 1024 bytes long.
//!
//! Header chunk: signature `DNSTREAM` at 0, section length (8 bytes, must be
//! 1) at 0x008, major version (4 bytes) at 0x010, minor version (4 bytes) at
//! 0x014, number of record chunks (8 bytes) at 0x3F8.
//!
//! Record chunk: signature `RECORD\0\0` at 0, section length (8 bytes, must be
//! 1) at 0x008, TTL (4 bytes) at 0x0F4, class (2 bytes) at 0x0F8, type (2
//! bytes) at 0x0FA, owner name length (1 byte) at 0x0FD, rdata length (2
//! bytes) at 0x0FE, owner name at 0x100, rdata at 0x200.
//!
//! Multi-byte fields are big-endian.

use crate::config::{AnswerData, Config, ConfigError, MAX_RDATA_LEN, ZoneTable, empty_table, insert_record};
use crate::wire::{U16be, U32be, U64be, be16, be32, be64};
use vstd::prelude::*;
use vstd::slice::slice_to_vec;

verus! {

/// Length of every chunk of the stream.
pub const CHUNK_LEN: usize = 1024;

/// The major version this reader understands; minor versions are not checked.
pub const CONFIG_MAJOR_VERSION: u32 = 1;

/// `DNSTREAM` in ASCII.
pub open spec fn header_signature() -> Seq<u8> {
    seq![0x44u8, 0x4E, 0x53, 0x54, 0x52, 0x45, 0x41, 0x4D]
}

/// `RECORD` in ASCII, then two zero bytes.
pub open spec fn record_signature() -> Seq<u8> {
    seq![0x52u8, 0x45, 0x43, 0x4F, 0x52, 0x44, 0x00, 0x00]
}

/// What the header chunk at the start of `c` announces: the number of record
/// chunks that follow.
pub open spec fn header_result(c: Seq<u8>) -> Result<u64, ConfigError> {
    if c.len() < CHUNK_LEN {
        Err(ConfigError::Truncated)
    } else if c.subrange(0, 8) != header_signature() || be64(c.subrange(8, 16)) != 1 || be32(
        c.subrange(16, 20),
    ) != CONFIG_MAJOR_VERSION {
        Err(ConfigError::Invalid)
    } else {
        Ok(be64(c.subrange(0x3F8, 0x400)) as u64)
    }
}

/// Owner name of the record chunk `c`.
pub open spec fn chunk_name(c: Seq<u8>) -> Seq<u8> {
    c.subrange(0x100, 0x100 + c[0xFD])
}

/// Record type of the record chunk `c`.
pub open spec fn chunk_type(c: Seq<u8>) -> u16 {
    be16(c[0xFA], c[0xFB]) as u16
}

/// Rdata length announced by the record chunk `c`.
pub open spec fn chunk_data_len(c: Seq<u8>) -> int {
    be16(c[0xFE], c[0xFF])
}

/// Rdata and TTL of the record chunk `c`.
pub open spec fn chunk_answer(c: Seq<u8>) -> (Seq<u8>, u32) {
    (c.subrange(0x200, 0x200 + chunk_data_len(c)), be32(c.subrange(0xF4, 0xF8)) as u32)
}

/// `t` after the record chunk at the start of `c`.
pub open spec fn record_result(t: ZoneTable, c: Seq<u8>) -> Result<ZoneTable, ConfigError> {
    if c.len() < CHUNK_LEN {
        Err(ConfigError::Truncated)
    } else if c.subrange(0, 8) != record_signature() || be64(c.subrange(8, 16)) != 1 {
        Err(ConfigError::Invalid)
    } else if chunk_data_len(c) > MAX_RDATA_LEN {
        Err(ConfigError::Invalid)
    } else {
        insert_record(t, chunk_name(c), chunk_type(c), chunk_answer(c))
    }
}

/// The bytes of `s` from `off` on.
pub open spec fn rest_from(s: Seq<u8>, off: int) -> Seq<u8> {
    if off <= s.len() {
        s.subrange(off, s.len() as int)
    } else {
        seq![]
    }
}

/// `t` after the record chunks `i` to `n - 1` of the stream `s`, chunk `i`
/// standing right after the header chunk and `i` chunks.
pub open spec fn load_records(t: ZoneTable, s: Seq<u8>, i: nat, n: nat) -> Result<
    ZoneTable,
    ConfigError,
>
    decreases n - i,
{
    if i >= n {
        Ok(t)
    } else {
        match record_result(t, rest_from(s, CHUNK_LEN * (i + 1))) {
            Err(e) => Err(e),
            Ok(t2) => load_records(t2, s, i + 1, n),
        }
    }
}

/// The table that the stream `s` describes, or why it describes none. Bytes
/// after the last announced chunk are not read.
pub open spec fn config_from(s: Seq<u8>) -> Result<ZoneTable, ConfigError> {
    match header_result(s) {
        Err(e) => Err(e),
        Ok(n) => load_records(empty_table(), s, 0, n as nat),
    }
}

/// Whether `b` starts with the eight bytes of `sig`.
fn starts_with8(b: &[u8], sig: [u8; 8]) -> (r: bool)
    requires
        b@.len() >= 8,
    ensures
        r == (b@.subrange(0, 8) == sig@),
{
    let mut i: usize = 0;
    while i < 8
        invariant
            b@.len() >= 8,
            forall|j: int| 0 <= j < i ==> b@[j] == sig@[j],
        decreases 8 - i,
    {
        if b[i] != sig[i] {
            assert(b@.subrange(0, 8)[i as int] != sig@[i as int]);
            return false;
        }
        i = i + 1;
    }
    assert(b@.subrange(0, 8) =~= sig@);
    true
}

/// A view of the header chunk at the start of `bytes`.
pub struct HeaderChunk<'a> {
    pub bytes: &'a [u8],
}

impl<'a> HeaderChunk<'a> {
    pub fn signature_ok(&self) -> (r: bool)
        requires
            self.bytes@.len() >= CHUNK_LEN,
        ensures
            r == (self.bytes@.subrange(0, 8) == header_signature()),
    {
        let sig: [u8; 8] = [0x44, 0x4E, 0x53, 0x54, 0x52, 0x45, 0x41, 0x4D];
        assert(sig@ =~= header_signature());
        starts_with8(self.bytes, sig)
    }

    pub fn section_length(&self) -> (r: u64)
        requires
            self.bytes@.len() >= CHUNK_LEN,
        ensures
            r == be64(self.bytes@.subrange(8, 16)),
    {
        U64be::at(self.bytes, 8).get()
    }

    pub fn version_major(&self) -> (r: u32)
        requires
            self.bytes@.len() >= CHUNK_LEN,
        ensures
            r == be32(self.bytes@.subrange(16, 20)),
    {
        U32be::at(self.bytes, 16)._get()
    }

    pub fn version_minor(&self) -> (r: u32)
        requires
            self.bytes@.len() >= CHUNK_LEN,
        ensures
            r == be32(self.bytes@.subrange(20, 24)),
    {
        U32be::at(self.bytes, 20)._get()
    }

    pub fn num_records(&self) -> (r: u64)
        requires
            self.bytes@.len() >= CHUNK_LEN,
        ensures
            r == be64(self.bytes@.subrange(0x3F8, 0x400)),
    {
        U64be::at(self.bytes, 0x3F8).get()
    }
}

/// A view of the record chunk at the start of `bytes`.
pub struct RecordChunk<'a> {
    pub bytes: &'a [u8],
}

impl<'a> RecordChunk<'a> {
    pub fn signature_ok(&self) -> (r: bool)
        requires
            self.bytes@.len() >= CHUNK_LEN,
        ensures
            r == (self.bytes@.subrange(0, 8) == record_signature()),
    {
        let sig: [u8; 8] = [0x52, 0x45, 0x43, 0x4F, 0x52, 0x44, 0x00, 0x00];
        assert(sig@ =~= record_signature());
        starts_with8(self.bytes, sig)
    }

    pub fn section_length(&self) -> (r: u64)
        requires
            self.bytes@.len() >= CHUNK_LEN,
        ensures
            r == be64(self.bytes@.subrange(8, 16)),
    {
        U64be::at(self.bytes, 8).get()
    }

    pub fn ttl(&self) -> (r: u32)
        requires
            self.bytes@.len() >= CHUNK_LEN,
        ensures
            r == chunk_answer(self.bytes@).1,
    {
        U32be::at(self.bytes, 0xF4)._get()
    }

    pub fn dns_type(&self) -> (r: u16)
        requires
            self.bytes@.len() >= CHUNK_LEN,
        ensures
            r == chunk_type(self.bytes@),
    {
        U16be::at(self.bytes, 0xFA).get()
    }

    pub fn data_len(&self) -> (r: u16)
        requires
            self.bytes@.len() >= CHUNK_LEN,
        ensures
            r == chunk_data_len(self.bytes@),
    {
        U16be::at(self.bytes, 0xFE).get()
    }

    /// The owner name: as many bytes from 0x100 on as the length byte at
    /// 0x0FD says.
    pub fn get_wire_domain(&self) -> (r: Vec<u8>)
        requires
            self.bytes@.len() >= CHUNK_LEN,
        ensures
            r@ == chunk_name(self.bytes@),
    {
        let len = self.bytes[0xFD] as usize;
        slice_to_vec(&self.bytes[0x100..0x100 + len])
    }

    /// The rdata: as many bytes from 0x200 on as the rdata length says.
    pub fn get_data(&self) -> (r: Vec<u8>)
        requires
            self.bytes@.len() >= CHUNK_LEN,
            chunk_data_len(self.bytes@) <= MAX_RDATA_LEN,
        ensures
            r@ == chunk_answer(self.bytes@).0,
    {
        let len = self.data_len() as usize;
        slice_to_vec(&self.bytes[0x200..0x200 + len])
    }
}

/// Checks the header chunk at the start of `chunk` and returns the number of
/// record chunks it announces.
pub fn read_header_chunk(chunk: &[u8]) -> (r: Result<u64, ConfigError>)
    ensures
        r == header_result(chunk@),
{
    if chunk.len() < CHUNK_LEN {
        return Err(ConfigError::Truncated);
    }
    let h = HeaderChunk { bytes: chunk };
    if !h.signature_ok() || h.section_length() != 1 || h.version_major() != CONFIG_MAJOR_VERSION {
        return Err(ConfigError::Invalid);
    }
    Ok(h.num_records())
}

impl Config {
    /// Adds the record of the record chunk at the start of `chunk`. A refused
    /// chunk leaves the table as it was.
    pub fn load_record_chunk(&mut self, chunk: &[u8]) -> (r: Result<(), ConfigError>)
        requires
            old(self).wf(),
        ensures
            final(self).wf(),
            match record_result(old(self)@, chunk@) {
                Ok(t) => r == Ok::<(), ConfigError>(()) && final(self)@ == t,
                Err(e) => r == Err::<(), ConfigError>(e) && final(self)@ == old(self)@,
            },
    {
        if chunk.len() < CHUNK_LEN {
            return Err(ConfigError::Truncated);
        }
        let rc = RecordChunk { bytes: chunk };
        if !rc.signature_ok() || rc.section_length() != 1 {
            return Err(ConfigError::Invalid);
        }
        if rc.data_len() as usize > MAX_RDATA_LEN {
            return Err(ConfigError::Invalid);
        }
        let name = rc.get_wire_domain();
        let rdata = rc.get_data();
        let rtype = rc.dns_type();
        let ttl = rc.ttl();
        self.add_record(name, rtype, AnswerData { rdata, ttl })
    }
}

/// Builds the zone table from a whole configuration stream: the header chunk,
/// then the record chunks it announces, in order.
pub fn parse_records(stream: &[u8]) -> (r: Result<Config, ConfigError>)
    ensures
        match config_from(stream@) {
            Ok(t) => r matches Ok(c) && c.wf() && c@ == t,
            Err(e) => r == Err::<Config, ConfigError>(e),
        },
{
    let n = match read_header_chunk(stream) {
        Ok(n) => n,
        Err(e) => {
            return Err(e);
        },
    };
    let mut cfg = Config::new();
    let mut i: u64 = 0;
    let mut off: usize = CHUNK_LEN;
    while i < n
        invariant
            header_result(stream@) == Ok::<u64, ConfigError>(n),
            cfg.wf(),
            i <= n,
            off == CHUNK_LEN * (i + 1),
            off <= stream@.len(),
            config_from(stream@) == load_records(cfg@, stream@, i as nat, n as nat),
        decreases n - i,
    {
        let chunk = &stream[off..stream.len()];
        assert(chunk@ == rest_from(stream@, CHUNK_LEN * (i + 1)));
        match cfg.load_record_chunk(chunk) {
            Ok(()) => {},
            Err(e) => {
                return Err(e);
            },
        }
        off = off + CHUNK_LEN;
        i = i + 1;
    }
    Ok(cfg)
}

} // verus!
