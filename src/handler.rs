//! The query handler: one datagram in, its reply written over it.
//!
//! The reply keeps the query's transaction ID and question; every reply is
//! marked as a response with recursion unavailable. A query that fails the
//! header checks or carries a malformed question is echoed with only its
//! flags changed. An accepted question is answered from the zone table with
//! the question kept, the authority and additional counts cleared, and the
//! answers appended; anything after the question in the query is dropped.

use crate::config::{
    AnswerData,
    Config,
    MAX_MESSAGE_LEN,
    MAX_RDATA_LEN,
    ZoneTable,
    answers_len,
    answers_view,
    rrset_ok,
};
use crate::flags::{
    FORMERR,
    Flags,
    NOERROR,
    NOTIMP,
    NXDOMAIN,
    REFUSED,
    lemma_flag_bits,
    opcode_of,
    with_auth,
    with_rcode,
    with_recurse,
    with_response,
};
use crate::wire::{U16be, U32be, be16, u16_bytes, u32_bytes};
use vstd::prelude::*;

verus! {

/// Length of the fixed DNS header.
pub const HEADER_LEN: usize = 12;

/// QTYPE and QCLASS, which follow the question name.
pub const QUESTION_TAIL_LEN: usize = 4;

/// Largest offset, counted from the end of the header, that a label of the
/// question name may start at.
pub const MAX_LABEL_OFFSET: usize = 0x100;

/// `s` as mathematical integers.
pub open spec fn ints(s: Seq<usize>) -> Seq<int> {
    s.map_values(|x: usize| x as int)
}

/// `p` followed by what `o` holds, if it holds something.
pub open spec fn join(p: Seq<int>, o: Option<Seq<int>>) -> Option<Seq<int>> {
    match o {
        Some(s) => Some(p + s),
        None => None,
    }
}

/// Where the labels of the question name of `m` start, from the label at
/// offset `i` on, offsets counted from the end of the header. `None` when the
/// name is malformed: a label length byte of 0x40 or more, a label that
/// starts past offset 0x100, or a name that leaves no room for QTYPE and
/// QCLASS before the end of `m`. The last start is that of the terminator.
pub open spec fn label_starts(m: Seq<u8>, i: int) -> Option<Seq<int>>
    decreases MAX_LABEL_OFFSET - i,
{
    if i < 0 || i > MAX_LABEL_OFFSET || HEADER_LEN + i >= m.len() - QUESTION_TAIL_LEN {
        None
    } else if m[HEADER_LEN + i] == 0 {
        Some(seq![i])
    } else if m[HEADER_LEN + i] < 0x40 {
        let next = i + m[HEADER_LEN + i] + 1;
        if next > MAX_LABEL_OFFSET {
            None
        } else {
            join(seq![i], label_starts(m, next))
        }
    } else {
        None
    }
}

/// End of the question name (past its terminator), counted from the end of
/// the header, given its label starts `s`.
pub open spec fn name_end(s: Seq<int>) -> int {
    s.last() + 1
}

/// The rcode with which the header of `m` is turned down, if it is.
pub open spec fn gate_rcode(m: Seq<u8>) -> Option<u8> {
    if opcode_of(m[2]) != 0 {
        Some(NOTIMP)
    } else if be16(m[4], m[5]) != 1 {
        Some(REFUSED)
    } else if be16(m[6], m[7]) != 0 {
        Some(FORMERR)
    } else {
        None
    }
}

/// Whether one of the suffixes of the question name of `m` that start at a
/// label is an apex in `zones`.
pub open spec fn authoritative(zones: Set<Seq<u8>>, m: Seq<u8>, s: Seq<int>) -> bool {
    exists|k: int|
        0 <= k < s.len() && #[trigger] zones.contains(
            m.subrange(HEADER_LEN + s[k], HEADER_LEN + name_end(s)),
        )
}

/// `m` marked as a response without recursion, with the authoritative bit
/// set to `aa` (kept when `None`) and the rcode `rcode`.
pub open spec fn reply_flags(m: Seq<u8>, aa: Option<bool>, rcode: u8) -> Seq<u8> {
    let b0 = with_response(m[2], true);
    m.update(
        2,
        match aa {
            Some(a) => with_auth(b0, a),
            None => b0,
        },
    ).update(3, with_rcode(with_recurse(m[3], false), rcode))
}

/// Header and question of `m`, whose question name ends at `e`, with
/// ANCOUNT set to `ancount` and NSCOUNT and ARCOUNT cleared.
pub open spec fn accepted_prefix(m: Seq<u8>, e: int, ancount: u16) -> Seq<u8> {
    m.subrange(0, HEADER_LEN + e + QUESTION_TAIL_LEN).update(6, u16_bytes(ancount)[0]).update(
        7,
        u16_bytes(ancount)[1],
    ).update(8, 0).update(9, 0).update(10, 0).update(11, 0)
}

/// One answer: a pointer to the question name, QTYPE and QCLASS as `tail`
/// holds them, the TTL, the rdata length and the rdata.
pub open spec fn answer_block(a: (Seq<u8>, u32), tail: Seq<u8>) -> Seq<u8> {
    seq![0xC0u8, 0x0C] + tail + u32_bytes(a.1) + u16_bytes(a.0.len() as u16) + a.0
}

/// The answers for the records of `s`, in order.
pub open spec fn answers_bytes(s: Seq<(Seq<u8>, u32)>, tail: Seq<u8>) -> Seq<u8>
    decreases s.len(),
{
    if s.len() == 0 {
        seq![]
    } else {
        answers_bytes(s.drop_last(), tail) + answer_block(s.last(), tail)
    }
}

/// The reply to the datagram `m` from the table `t`.
pub open spec fn reply(t: ZoneTable, m: Seq<u8>) -> Seq<u8> {
    match gate_rcode(m) {
        Some(rc) => reply_flags(m, None, rc),
        None => match label_starts(m, 0) {
            None => reply_flags(m, None, FORMERR),
            Some(s) => {
                let e = name_end(s);
                let key = (
                    m.subrange(HEADER_LEN as int, HEADER_LEN + e),
                    be16(m[HEADER_LEN + e], m[HEADER_LEN + e + 1]) as u16,
                );
                if !authoritative(t.zones, m, s) {
                    reply_flags(accepted_prefix(m, e, 0), Some(false), REFUSED)
                } else if !t.lookup.contains_key(key) {
                    reply_flags(accepted_prefix(m, e, 0), Some(true), NXDOMAIN)
                } else {
                    reply_flags(accepted_prefix(m, e, t.lookup[key].len() as u16), Some(true), NOERROR)
                        + answers_bytes(
                        t.lookup[key],
                        m.subrange(HEADER_LEN + e, HEADER_LEN + e + QUESTION_TAIL_LEN),
                    )
                }
            },
        },
    }
}

/// The label starts run upward from `i` to the terminator's, which leaves
/// room for QTYPE and QCLASS.
pub proof fn lemma_label_starts(m: Seq<u8>, i: int)
    requires
        label_starts(m, i) is Some,
    ensures
        ({
            let s = label_starts(m, i)->0;
            &&& s.len() >= 1
            &&& s[0] == i
            &&& 0 <= i <= s.last() <= MAX_LABEL_OFFSET
            &&& HEADER_LEN + s.last() < m.len() - QUESTION_TAIL_LEN
            &&& m[HEADER_LEN + s.last()] == 0
            &&& forall|k: int| 0 <= k < s.len() ==> i <= #[trigger] s[k] <= s.last()
        }),
    decreases MAX_LABEL_OFFSET - i,
{
    if m[HEADER_LEN + i] != 0 {
        let next = i + m[HEADER_LEN + i] + 1;
        lemma_label_starts(m, next);
        let s = label_starts(m, i)->0;
        let t = label_starts(m, next)->0;
        assert(s =~= seq![i] + t);
        assert forall|k: int| 0 <= k < s.len() implies i <= #[trigger] s[k] <= s.last() by {
            if k > 0 {
                assert(s[k] == t[k - 1]);
            }
        }
    }
}

/// Finds the label starts of the question name of `buf[..n]`.
fn scan_question(buf: &[u8], n: usize) -> (r: Option<Vec<usize>>)
    requires
        HEADER_LEN <= n <= buf@.len(),
    ensures
        match label_starts(buf@.subrange(0, n as int), 0) {
            Some(s) => r matches Some(v) && ints(v@) == s,
            None => r is None,
        },
{
    let ghost m = buf@.subrange(0, n as int);
    let mut starts: Vec<usize> = Vec::new();
    let mut index: usize = 0;
    assert(ints(starts@) + label_starts(m, 0)->0 =~= label_starts(m, 0)->0);
    loop
        invariant
            HEADER_LEN <= n <= buf@.len(),
            m == buf@.subrange(0, n as int),
            index <= MAX_LABEL_OFFSET,
            label_starts(m, 0) == join(ints(starts@), label_starts(m, index as int)),
        decreases MAX_LABEL_OFFSET - index,
    {
        if HEADER_LEN + index >= n - QUESTION_TAIL_LEN {
            return None;
        }
        let len = buf[HEADER_LEN + index] as usize;
        if len == 0 {
            let ghost before = starts@;
            starts.push(index);
            assert(ints(starts@) =~= ints(before) + seq![index as int]);
            return Some(starts);
        }
        if len >= 0x40 {
            return None;
        }
        let next = index + len + 1;
        if next > MAX_LABEL_OFFSET {
            return None;
        }
        let ghost before = starts@;
        starts.push(index);
        proof {
            assert(ints(starts@) =~= ints(before) + seq![index as int]);
            match label_starts(m, next as int) {
                Some(t) => {
                    assert(ints(starts@) + t =~= ints(before) + (seq![index as int] + t));
                },
                None => {},
            }
        }
        index = next;
    }
}

/// Whether a suffix of the question name that starts at one of `starts` is
/// an apex of `config`. The shortest suffixes are tried first.
fn in_zone(config: &Config, buf: &[u8], n: usize, starts: &Vec<usize>) -> (r: bool)
    requires
        HEADER_LEN <= n <= buf@.len(),
        label_starts(buf@.subrange(0, n as int), 0) == Some(ints(starts@)),
    ensures
        r == authoritative(config@.zones, buf@.subrange(0, n as int), ints(starts@)),
{
    let ghost m = buf@.subrange(0, n as int);
    let ghost s = ints(starts@);
    proof {
        lemma_label_starts(m, 0);
    }
    let end = HEADER_LEN + starts[starts.len() - 1] + 1;
    let mut k: usize = starts.len();
    while k > 0
        invariant
            HEADER_LEN <= n <= buf@.len(),
            m == buf@.subrange(0, n as int),
            s == ints(starts@),
            label_starts(m, 0) == Some(s),
            end == HEADER_LEN + name_end(s),
            end <= n,
            k <= starts@.len(),
            forall|j: int|
                k <= j < s.len() ==> !#[trigger] config@.zones.contains(
                    m.subrange(HEADER_LEN + s[j], HEADER_LEN + name_end(s)),
                ),
        decreases k,
    {
        k = k - 1;
        proof {
            lemma_label_starts(m, 0);
        }
        assert(s[k as int] == starts@[k as int]);
        let start = HEADER_LEN + starts[k];
        assert(m.subrange(start as int, end as int) =~= buf@.subrange(start as int, end as int));
        if config.has_zone_at(buf, start, end) {
            return true;
        }
    }
    false
}

/// Bytes of a block and of all blocks are as long as their sum says.
pub proof fn lemma_answers_bytes_len(s: Seq<(Seq<u8>, u32)>, tail: Seq<u8>)
    requires
        tail.len() == QUESTION_TAIL_LEN,
    ensures
        answers_bytes(s, tail).len() == answers_len(s),
    decreases s.len(),
{
    if s.len() > 0 {
        lemma_answers_bytes_len(s.drop_last(), tail);
    }
}

/// The blocks of a prefix take no more room than all of them.
proof fn lemma_answers_len_prefix(s: Seq<(Seq<u8>, u32)>, i: int)
    requires
        0 <= i <= s.len(),
    ensures
        0 <= answers_len(s.take(i)) <= answers_len(s),
    decreases s.len(),
{
    if i == s.len() {
        assert(s.take(i) =~= s);
        if s.len() > 0 {
            lemma_answers_len_prefix(s.drop_last(), 0);
        }
    } else {
        lemma_answers_len_prefix(s.drop_last(), i);
        assert(s.drop_last().take(i) =~= s.take(i));
    }
}

/// Writes the answer block for `a` at `pos`; returns where it ends.
fn write_block(buffer: &mut Vec<u8>, pos: usize, tail: [u8; 4], a: &AnswerData) -> (end: usize)
    requires
        a.rdata@.len() <= MAX_RDATA_LEN,
        pos + 12 + a.rdata@.len() <= old(buffer)@.len(),
    ensures
        end == pos + 12 + a.rdata@.len(),
        final(buffer)@.len() == old(buffer)@.len(),
        final(buffer)@.subrange(0, pos as int) == old(buffer)@.subrange(0, pos as int),
        final(buffer)@.subrange(pos as int, end as int) == answer_block(a@, tail@),
{
    let blen = buffer.len();
    let end = pos + 12 + a.rdata.len();
    let mut ttl = U32be { bytes: [0, 0, 0, 0] };
    ttl.put(a.ttl);
    let mut rdlen = U16be { bytes: [0, 0] };
    rdlen.put(a.rdata.len() as u16);
    buffer[pos] = 0xC0;
    buffer[pos + 1] = 0x0C;
    buffer[pos + 2] = tail[0];
    buffer[pos + 3] = tail[1];
    buffer[pos + 4] = tail[2];
    buffer[pos + 5] = tail[3];
    buffer[pos + 6] = ttl.bytes[0];
    buffer[pos + 7] = ttl.bytes[1];
    buffer[pos + 8] = ttl.bytes[2];
    buffer[pos + 9] = ttl.bytes[3];
    buffer[pos + 10] = rdlen.bytes[0];
    buffer[pos + 11] = rdlen.bytes[1];
    let ghost fixed = seq![0xC0u8, 0x0C] + tail@ + u32_bytes(a.ttl) + u16_bytes(a.rdata@.len() as u16);
    assert(buffer@.subrange(pos as int, pos + 12) =~= fixed);
    let mut j: usize = 0;
    while j < a.rdata.len()
        invariant
            a.rdata@.len() <= MAX_RDATA_LEN,
            end == pos + 12 + a.rdata@.len(),
            end <= blen,
            blen == buffer@.len(),
            buffer@.len() == old(buffer)@.len(),
            buffer@.subrange(0, pos as int) == old(buffer)@.subrange(0, pos as int),
            buffer@.subrange(pos as int, pos + 12) == fixed,
            forall|i: int| 0 <= i < j ==> buffer@[pos + 12 + i] == a.rdata@[i],
        decreases a.rdata@.len() - j,
    {
        buffer[pos + 12 + j] = a.rdata[j];
        j = j + 1;
        assert(buffer@.subrange(0, pos as int) =~= old(buffer)@.subrange(0, pos as int));
        assert(buffer@.subrange(pos as int, pos + 12) =~= fixed);
    }
    assert(buffer@.subrange(pos as int, end as int) =~= answer_block(a@, tail@)) by {
        assert(buffer@.subrange(pos as int, end as int) =~= fixed + a.rdata@);
    }
    end
}

/// Writes the answer blocks for `rs` from `start` on; returns where they end.
fn write_answers(buffer: &mut Vec<u8>, start: usize, rs: &Vec<AnswerData>, tail: [u8; 4]) -> (end: usize)
    requires
        start + answers_len(answers_view(rs@)) <= old(buffer)@.len(),
        forall|i: int| 0 <= i < rs@.len() ==> #[trigger] rs@[i].rdata@.len() <= MAX_RDATA_LEN,
    ensures
        end == start + answers_len(answers_view(rs@)),
        final(buffer)@.len() == old(buffer)@.len(),
        final(buffer)@.subrange(0, start as int) == old(buffer)@.subrange(0, start as int),
        final(buffer)@.subrange(start as int, end as int) == answers_bytes(answers_view(rs@), tail@),
{
    let ghost all = answers_view(rs@);
    let mut pos = start;
    let mut i: usize = 0;
    proof {
        lemma_answers_len_prefix(all, 0);
    }
    assert(all.take(0) =~= seq![]);
    assert(buffer@.subrange(start as int, start as int) =~= seq![]);
    while i < rs.len()
        invariant
            all == answers_view(rs@),
            start + answers_len(all) <= buffer@.len(),
            forall|k: int| 0 <= k < rs@.len() ==> #[trigger] rs@[k].rdata@.len() <= MAX_RDATA_LEN,
            i <= rs@.len(),
            pos == start + answers_len(all.take(i as int)),
            buffer@.len() == old(buffer)@.len(),
            buffer@.subrange(0, start as int) == old(buffer)@.subrange(0, start as int),
            buffer@.subrange(start as int, pos as int) == answers_bytes(all.take(i as int), tail@),
        decreases rs@.len() - i,
    {
        proof {
            lemma_answers_len_prefix(all, i as int);
            lemma_answers_len_prefix(all, i + 1);
            assert(all.take(i + 1).drop_last() =~= all.take(i as int));
            assert(all.take(i + 1).last() == rs@[i as int]@);
        }
        let ghost mid = buffer@;
        let next = write_block(buffer, pos, tail, &rs[i]);
        proof {
            assert(buffer@.subrange(0, start as int) =~= mid.subrange(0, start as int)) by {
                assert(buffer@.subrange(0, start as int) =~= buffer@.subrange(0, pos as int).subrange(0, start as int));
                assert(mid.subrange(0, start as int) =~= mid.subrange(0, pos as int).subrange(0, start as int));
            }
            assert(buffer@.subrange(start as int, pos as int) =~= mid.subrange(start as int, pos as int)) by {
                assert(buffer@.subrange(start as int, pos as int) =~= buffer@.subrange(0, pos as int).subrange(start as int, pos as int));
                assert(mid.subrange(start as int, pos as int) =~= mid.subrange(0, pos as int).subrange(start as int, pos as int));
            }
            assert(buffer@.subrange(start as int, next as int) =~= buffer@.subrange(start as int, pos as int) + buffer@.subrange(pos as int, next as int));
        }
        pos = next;
        i = i + 1;
    }
    assert(all.take(rs@.len() as int) =~= all);
    pos
}

/// Writes the flag bytes.
fn put_flags(buffer: &mut Vec<u8>, flags: &Flags)
    requires
        HEADER_LEN <= old(buffer)@.len(),
    ensures
        final(buffer)@ == old(buffer)@.update(2, flags.bytes@[0]).update(3, flags.bytes@[1]),
{
    buffer[2] = flags.bytes[0];
    buffer[3] = flags.bytes[1];
}

/// Writes ANCOUNT and clears NSCOUNT and ARCOUNT.
fn put_counts(buffer: &mut Vec<u8>, ancount: u16)
    requires
        HEADER_LEN <= old(buffer)@.len(),
    ensures
        final(buffer)@ == old(buffer)@.update(6, u16_bytes(ancount)[0]).update(
            7,
            u16_bytes(ancount)[1],
        ).update(8, 0).update(9, 0).update(10, 0).update(11, 0),
{
    let mut an = U16be { bytes: [0, 0] };
    an.put(ancount);
    buffer[6] = an.bytes[0];
    buffer[7] = an.bytes[1];
    buffer[8] = 0;
    buffer[9] = 0;
    buffer[10] = 0;
    buffer[11] = 0;
}

/// Turns the query in `buffer[..size]` into its reply from `config`, in
/// place, and sets `size` to the reply's length. Bytes past the new size are
/// left unspecified.
pub fn handle(config: &Config, buffer: &mut Vec<u8>, size: &mut usize)
    requires
        config.wf(),
        MAX_MESSAGE_LEN <= old(buffer)@.len(),
        HEADER_LEN <= *old(size) <= old(buffer)@.len(),
    ensures
        final(buffer)@.len() == old(buffer)@.len(),
        *final(size) == reply(config@, old(buffer)@.subrange(0, *old(size) as int)).len(),
        final(buffer)@.subrange(0, *final(size) as int) == reply(
            config@,
            old(buffer)@.subrange(0, *old(size) as int),
        ),
{
    let ghost m = old(buffer)@.subrange(0, *old(size) as int);
    let n = *size;
    let mut flags = Flags { bytes: [buffer[2], buffer[3]] };
    flags.set_response(true);
    flags.set_recurse(false);
    proof {
        lemma_flag_bits(m[2], 0);
    }
    let rc: u8 = if flags.get_opcode() != 0 {
        NOTIMP
    } else if U16be::at(buffer.as_slice(), 4).get() != 1 {
        REFUSED
    } else if U16be::at(buffer.as_slice(), 6).get() != 0 {
        FORMERR
    } else {
        NOERROR
    };
    if rc != NOERROR {
        flags.set_rcode(rc);
        put_flags(buffer, &flags);
        assert(buffer@.subrange(0, n as int) =~= reply(config@, m));
        return;
    }
    let starts = match scan_question(buffer.as_slice(), n) {
        Some(v) => v,
        None => {
            flags.set_rcode(FORMERR);
            put_flags(buffer, &flags);
            assert(buffer@.subrange(0, n as int) =~= reply(config@, m));
            return;
        },
    };
    let ghost s = ints(starts@);
    proof {
        lemma_label_starts(m, 0);
    }
    let e = starts[starts.len() - 1] + 1;
    let qend = HEADER_LEN + e + QUESTION_TAIL_LEN;
    let tail: [u8; 4] = [
        buffer[HEADER_LEN + e],
        buffer[HEADER_LEN + e + 1],
        buffer[HEADER_LEN + e + 2],
        buffer[HEADER_LEN + e + 3],
    ];
    assert(tail@ =~= m.subrange(HEADER_LEN + e, qend as int));
    let qtype = U16be::at(buffer.as_slice(), HEADER_LEN + e).get();
    let ghost key = (m.subrange(HEADER_LEN as int, HEADER_LEN + e), qtype);
    assert(buffer@.subrange(HEADER_LEN as int, HEADER_LEN + e) =~= key.0);
    let auth = in_zone(config, buffer.as_slice(), n, &starts);
    let ghost query = buffer@;
    if !auth {
        flags.set_auth(false);
        flags.set_rcode(REFUSED);
        put_flags(buffer, &flags);
        put_counts(buffer, 0);
        *size = qend;
        assert(buffer@.subrange(0, qend as int) =~= reply(config@, m));
        return;
    }
    match config.lookup_at(buffer.as_slice(), HEADER_LEN, HEADER_LEN + e, qtype) {
        None => {
            flags.set_auth(true);
            flags.set_rcode(NXDOMAIN);
            put_flags(buffer, &flags);
            put_counts(buffer, 0);
            *size = qend;
            assert(buffer@.subrange(0, qend as int) =~= reply(config@, m));
        },
        Some(rs) => {
            let ghost recs = answers_view(rs@);
            proof {
                config.lemma_table_ok();
                assert(rrset_ok(key.0, recs));
                assert forall|i: int| 0 <= i < rs@.len() implies #[trigger] rs@[i].rdata@.len()
                    <= MAX_RDATA_LEN by {
                    assert(recs[i].0.len() <= MAX_RDATA_LEN);
                }
                lemma_answers_bytes_len(recs, tail@);
                lemma_answers_len_prefix(recs, 0);
            }
            let end = write_answers(buffer, qend, rs, tail);
            let ghost written = buffer@;
            flags.set_auth(true);
            flags.set_rcode(NOERROR);
            put_flags(buffer, &flags);
            put_counts(buffer, rs.len() as u16);
            *size = end;
            proof {
                let head = reply_flags(accepted_prefix(m, e as int, rs@.len() as u16), Some(true), NOERROR);
                assert(written.subrange(0, qend as int) =~= m.subrange(0, qend as int)) by {
                    assert(query.subrange(0, qend as int) =~= m.subrange(0, qend as int));
                }
                assert(buffer@.subrange(0, qend as int) =~= head);
                assert(buffer@.subrange(qend as int, end as int) =~= written.subrange(qend as int, end as int));
                assert(buffer@.subrange(0, end as int) =~= buffer@.subrange(0, qend as int) + buffer@.subrange(qend as int, end as int));
                assert(buffer@.subrange(0, end as int) =~= reply(config@, m));
            }
        },
    }
}

} // verus!
