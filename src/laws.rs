//! Properties of the handler and of the configuration reader that hold for
//! every input, stated over the models that their contracts use.

use crate::config::{
    MAX_RDATA_LEN,
    SOA,
    ZoneTable,
    add_to_table,
    answers_len,
    empty_table,
    insert_record,
    reply_fits,
    rrset_of,
    rrset_ok,
    table_ok,
    wire_name_ok,
};
use crate::flags::{
    FORMERR,
    NOERROR,
    NOTIMP,
    NXDOMAIN,
    REFUSED,
    aa_of,
    lemma_flag_bits,
    opcode_of,
    qr_of,
    ra_of,
    rcode_of,
    with_recurse,
    with_response,
};
use crate::handler::{
    HEADER_LEN,
    MAX_LABEL_OFFSET,
    QUESTION_TAIL_LEN,
    accepted_prefix,
    answer_block,
    answers_bytes,
    authoritative,
    gate_rcode,
    label_starts,
    lemma_label_starts,
    name_end,
    reply,
    reply_flags,
};
use crate::stream::{
    CHUNK_LEN,
    chunk_answer,
    chunk_name,
    chunk_type,
    config_from,
    header_result,
    load_records,
    record_result,
    rest_from,
};
use crate::wire::{be16, lemma_be16_of_u16_bytes, lemma_u32_bytes_of_be32, u32_bytes};
use vstd::prelude::*;

verus! {

/// Where the question of `m` ends, when `m` has a well-formed question.
pub open spec fn question_end(m: Seq<u8>) -> int {
    HEADER_LEN + name_end(label_starts(m, 0)->0) + QUESTION_TAIL_LEN
}

/// Cuts `b` into answer records, each twelve fixed bytes followed by as many
/// rdata bytes as its RDLENGTH field (bytes 10 and 11) says. `None` when the
/// bytes do not end with a whole record.
pub open spec fn split_records(b: Seq<u8>) -> Option<Seq<Seq<u8>>>
    decreases b.len(),
{
    if b.len() == 0 {
        Some(seq![])
    } else if b.len() < 12 {
        None
    } else {
        let l = 12 + be16(b[10], b[11]);
        if b.len() < l {
            None
        } else {
            match split_records(b.subrange(l, b.len() as int)) {
                Some(r) => Some(seq![b.subrange(0, l)] + r),
                None => None,
            }
        }
    }
}

/// The flag bytes of a reply read back as they were set.
proof fn lemma_reply_flags(m: Seq<u8>, aa: Option<bool>, rcode: u8)
    requires
        m.len() >= HEADER_LEN,
        rcode < 16,
    ensures
        ({
            let r = reply_flags(m, aa, rcode);
            &&& r.len() == m.len()
            &&& qr_of(r[2])
            &&& !ra_of(r[3])
            &&& rcode_of(r[3]) == rcode
            &&& opcode_of(r[2]) == opcode_of(m[2])
            &&& aa matches Some(a) ==> aa_of(r[2]) == a
            &&& aa is None ==> aa_of(r[2]) == aa_of(m[2])
        }),
{
    lemma_flag_bits(m[2], rcode);
    lemma_flag_bits(with_response(m[2], true), rcode);
    lemma_flag_bits(m[3], rcode);
    lemma_flag_bits(with_recurse(m[3], false), rcode);
}

/// A reply that carries answers begins with the accepted header and question.
proof fn lemma_reply_shape(t: ZoneTable, m: Seq<u8>)
    requires
        m.len() >= HEADER_LEN,
        gate_rcode(m) is None,
        label_starts(m, 0) is Some,
    ensures
        question_end(m) <= reply(t, m).len(),
        question_end(m) <= m.len(),
{
    lemma_label_starts(m, 0);
}

/// Every reply is at least a header long, keeps the transaction ID, is
/// marked as a response, and does not offer recursion.
pub proof fn lemma_reply_header(t: ZoneTable, m: Seq<u8>)
    requires
        m.len() >= HEADER_LEN,
    ensures
        reply(t, m).len() >= HEADER_LEN,
        reply(t, m)[0] == m[0],
        reply(t, m)[1] == m[1],
        qr_of(reply(t, m)[2]),
        !ra_of(reply(t, m)[3]),
{
    let r = reply(t, m);
    match gate_rcode(m) {
        Some(rc) => lemma_reply_flags(m, None, rc),
        None => match label_starts(m, 0) {
            None => lemma_reply_flags(m, None, FORMERR),
            Some(s) => {
                lemma_label_starts(m, 0);
                let e = name_end(s);
                let key = (
                    m.subrange(HEADER_LEN as int, HEADER_LEN + e),
                    be16(m[HEADER_LEN + e], m[HEADER_LEN + e + 1]) as u16,
                );
                if !authoritative(t.zones, m, s) {
                    lemma_reply_flags(accepted_prefix(m, e, 0), Some(false), REFUSED);
                } else if !t.lookup.contains_key(key) {
                    lemma_reply_flags(accepted_prefix(m, e, 0), Some(true), NXDOMAIN);
                } else {
                    let p = accepted_prefix(m, e, t.lookup[key].len() as u16);
                    lemma_reply_flags(p, Some(true), NOERROR);
                    let h = reply_flags(p, Some(true), NOERROR);
                    assert(r[0] == h[0] && r[1] == h[1] && r[2] == h[2] && r[3] == h[3]);
                }
            },
        },
    }
}

/// The fixed part of an answer block.
proof fn lemma_block_fields(a: (Seq<u8>, u32), tail: Seq<u8>)
    requires
        tail.len() == QUESTION_TAIL_LEN,
        a.0.len() <= MAX_RDATA_LEN,
    ensures
        answer_block(a, tail).len() == 12 + a.0.len(),
        be16(answer_block(a, tail)[10], answer_block(a, tail)[11]) == a.0.len(),
        answer_block(a, tail)[0] == 0xC0,
        answer_block(a, tail)[1] == 0x0C,
{
    let b = answer_block(a, tail);
    let n = crate::wire::u16_bytes(a.0.len() as u16);
    lemma_be16_of_u16_bytes(a.0.len() as u16);
    assert(b[10] == n[0]);
    assert(b[11] == n[1]);
}

/// Cutting bytes that end with one more answer block yields one more record.
proof fn lemma_split_push(x: Seq<u8>, a: (Seq<u8>, u32), tail: Seq<u8>)
    requires
        split_records(x) is Some,
        tail.len() == QUESTION_TAIL_LEN,
        a.0.len() <= MAX_RDATA_LEN,
    ensures
        split_records(x + answer_block(a, tail)) == Some(
            split_records(x)->0.push(answer_block(a, tail)),
        ),
    decreases x.len(),
{
    let b = answer_block(a, tail);
    lemma_block_fields(a, tail);
    let xb = x + b;
    if x.len() == 0 {
        assert(xb =~= b);
        assert(b.subrange(b.len() as int, b.len() as int) =~= Seq::<u8>::empty());
        assert(b.subrange(0, b.len() as int) =~= b);
        assert(split_records(x)->0.push(b) =~= seq![b] + Seq::<Seq<u8>>::empty());
        assert(split_records(Seq::<u8>::empty()) == Some(Seq::<Seq<u8>>::empty()));
        assert(split_records(b) == Some(seq![b] + Seq::<Seq<u8>>::empty()));
    } else {
        let l = 12 + be16(x[10], x[11]);
        let rest = x.subrange(l, x.len() as int);
        lemma_split_push(rest, a, tail);
        assert(xb[10] == x[10] && xb[11] == x[11]);
        assert(xb.subrange(l, xb.len() as int) =~= rest + b);
        assert(xb.subrange(0, l) =~= x.subrange(0, l));
        let head = seq![x.subrange(0, l)];
        let tl = split_records(rest)->0;
        assert(head + tl.push(b) =~= (head + tl).push(b));
        assert(split_records(x) == Some(head + tl));
        assert(split_records(rest + b) == Some(tl.push(b)));
        assert(xb.len() >= l);
        assert(split_records(xb) == Some(head + tl.push(b)));
    }
}

/// The answer section cuts into one record per answer, each the block of
/// that answer.
pub proof fn lemma_split_answers(s: Seq<(Seq<u8>, u32)>, tail: Seq<u8>)
    requires
        tail.len() == QUESTION_TAIL_LEN,
        forall|i: int| 0 <= i < s.len() ==> #[trigger] s[i].0.len() <= MAX_RDATA_LEN,
    ensures
        split_records(answers_bytes(s, tail)) is Some,
        split_records(answers_bytes(s, tail))->0.len() == s.len(),
        forall|i: int|
            0 <= i < s.len() ==> #[trigger] split_records(answers_bytes(s, tail))->0[i]
                == answer_block(s[i], tail),
    decreases s.len(),
{
    if s.len() > 0 {
        let p = s.drop_last();
        lemma_split_answers(p, tail);
        lemma_split_push(answers_bytes(p, tail), s.last(), tail);
        let r = split_records(answers_bytes(s, tail))->0;
        assert forall|i: int| 0 <= i < s.len() implies #[trigger] r[i] == answer_block(s[i], tail) by {
            if i < p.len() {
                assert(r[i] == split_records(answers_bytes(p, tail))->0[i]);
            }
        }
    }
}

/// Each answer block takes at least its twelve fixed bytes.
proof fn lemma_answers_len_count(s: Seq<(Seq<u8>, u32)>)
    ensures
        answers_len(s) >= 12 * s.len(),
    decreases s.len(),
{
    if s.len() > 0 {
        lemma_answers_len_count(s.drop_last());
    }
}

/// In the reply to a query whose header passes and whose question is well
/// formed, ANCOUNT is the number of answer records that follow the question,
/// and NSCOUNT and ARCOUNT are zero.
pub proof fn lemma_reply_counts(t: ZoneTable, m: Seq<u8>)
    requires
        table_ok(t),
        m.len() >= HEADER_LEN,
        gate_rcode(m) is None,
        label_starts(m, 0) is Some,
    ensures
        ({
            let r = reply(t, m);
            let q = question_end(m);
            &&& q <= r.len()
            &&& split_records(r.subrange(q, r.len() as int)) matches Some(recs) && recs.len() == be16(
                r[6],
                r[7],
            )
            &&& r[8] == 0 && r[9] == 0 && r[10] == 0 && r[11] == 0
        }),
{
    let s = label_starts(m, 0)->0;
    lemma_label_starts(m, 0);
    let e = name_end(s);
    let q = question_end(m);
    let r = reply(t, m);
    let key = (
        m.subrange(HEADER_LEN as int, HEADER_LEN + e),
        be16(m[HEADER_LEN + e], m[HEADER_LEN + e + 1]) as u16,
    );
    if !authoritative(t.zones, m, s) || !t.lookup.contains_key(key) {
        lemma_be16_of_u16_bytes(0);
        assert(r.subrange(q, r.len() as int) =~= seq![]);
    } else {
        let rs = t.lookup[key];
        let tail = m.subrange(HEADER_LEN + e, HEADER_LEN + e + QUESTION_TAIL_LEN);
        assert(rrset_ok(key.0, rs));
        assert(reply_fits(key.0, rs));
        lemma_answers_len_count(rs);
        lemma_be16_of_u16_bytes(rs.len() as u16);
        lemma_split_answers(rs, tail);
        let h = reply_flags(accepted_prefix(m, e, rs.len() as u16), Some(true), NOERROR);
        assert(r.subrange(q, r.len() as int) =~= answers_bytes(rs, tail));
        assert(r[6] == h[6] && r[7] == h[7] && r[8] == h[8] && r[9] == h[9] && r[10] == h[10] && r[11]
            == h[11]);
    }
}

/// A query with an operation code other than zero is answered NOTIMP, at its
/// own length.
pub proof fn lemma_reply_notimp(t: ZoneTable, m: Seq<u8>)
    requires
        m.len() >= HEADER_LEN,
        opcode_of(m[2]) != 0,
    ensures
        rcode_of(reply(t, m)[3]) == NOTIMP,
        reply(t, m).len() == m.len(),
{
    lemma_reply_flags(m, None, NOTIMP);
}

/// In a NOERROR reply, every answer record after the question begins with
/// the pointer `C0 0C` to the question name.
pub proof fn lemma_noerror_pointers(t: ZoneTable, m: Seq<u8>)
    requires
        table_ok(t),
        m.len() >= HEADER_LEN,
        rcode_of(reply(t, m)[3]) == NOERROR,
    ensures
        gate_rcode(m) is None,
        label_starts(m, 0) is Some,
        question_end(m) <= reply(t, m).len(),
        split_records(reply(t, m).subrange(question_end(m), reply(t, m).len() as int)) matches Some(
            recs,
        ) && forall|i: int|
            0 <= i < recs.len() ==> #[trigger] recs[i][0] == 0xC0 && recs[i][1] == 0x0C,
{
    let r = reply(t, m);
    match gate_rcode(m) {
        Some(rc) => {
            lemma_reply_flags(m, None, rc);
        },
        None => match label_starts(m, 0) {
            None => {
                lemma_reply_flags(m, None, FORMERR);
            },
            Some(s) => {
                lemma_label_starts(m, 0);
                let e = name_end(s);
                let key = (
                    m.subrange(HEADER_LEN as int, HEADER_LEN + e),
                    be16(m[HEADER_LEN + e], m[HEADER_LEN + e + 1]) as u16,
                );
                if !authoritative(t.zones, m, s) {
                    lemma_reply_flags(accepted_prefix(m, e, 0), Some(false), REFUSED);
                } else if !t.lookup.contains_key(key) {
                    lemma_reply_flags(accepted_prefix(m, e, 0), Some(true), NXDOMAIN);
                } else {
                    let rs = t.lookup[key];
                    let tail = m.subrange(HEADER_LEN + e, HEADER_LEN + e + QUESTION_TAIL_LEN);
                    assert(rrset_ok(key.0, rs));
                    lemma_split_answers(rs, tail);
                    let q = question_end(m);
                    assert(r.subrange(q, r.len() as int) =~= answers_bytes(rs, tail));
                    let recs = split_records(answers_bytes(rs, tail))->0;
                    assert forall|i: int| 0 <= i < recs.len() implies #[trigger] recs[i][0] == 0xC0
                        && recs[i][1] == 0x0C by {
                        assert(recs[i] == answer_block(rs[i], tail));
                    }
                }
            },
        },
    }
}

/// A query whose header passes but whose first label length byte has its
/// top two bits set is answered FORMERR at its own length, with the
/// authoritative bit and ANCOUNT as the query had them.
pub proof fn lemma_pointer_in_name_formerr(t: ZoneTable, m: Seq<u8>)
    requires
        m.len() > HEADER_LEN,
        gate_rcode(m) is None,
        m[HEADER_LEN as int] >= 0x40,
    ensures
        rcode_of(reply(t, m)[3]) == FORMERR,
        reply(t, m).len() == m.len(),
        aa_of(reply(t, m)[2]) == aa_of(m[2]),
        reply(t, m)[6] == m[6],
        reply(t, m)[7] == m[7],
{
    lemma_reply_flags(m, None, FORMERR);
}

/// A standard query whose QDCOUNT is not one is answered REFUSED at its own
/// length.
pub proof fn lemma_qdcount_refused(t: ZoneTable, m: Seq<u8>)
    requires
        m.len() >= HEADER_LEN,
        opcode_of(m[2]) == 0,
        be16(m[4], m[5]) != 1,
    ensures
        rcode_of(reply(t, m)[3]) == REFUSED,
        reply(t, m).len() == m.len(),
{
    lemma_reply_flags(m, None, REFUSED);
}

/// Every question name that the handler accepts is at most 257 bytes long,
/// terminator included: a name whose labels run further is answered FORMERR.
pub proof fn lemma_accepted_name_len(t: ZoneTable, m: Seq<u8>)
    requires
        m.len() >= HEADER_LEN,
        gate_rcode(m) is None,
        rcode_of(reply(t, m)[3]) != FORMERR,
    ensures
        label_starts(m, 0) is Some,
        name_end(label_starts(m, 0)->0) <= MAX_LABEL_OFFSET + 1,
{
    if label_starts(m, 0) is None {
        lemma_reply_flags(m, None, FORMERR);
    } else {
        lemma_label_starts(m, 0);
    }
}

/// A well-formed question for an apex itself, of a type that the apex has no
/// records of, is answered NXDOMAIN with the authoritative bit set.
pub proof fn lemma_apex_without_type_nxdomain(t: ZoneTable, m: Seq<u8>)
    requires
        m.len() >= HEADER_LEN,
        gate_rcode(m) is None,
        label_starts(m, 0) is Some,
        t.zones.contains(m.subrange(HEADER_LEN as int, question_end(m) - QUESTION_TAIL_LEN)),
        !t.lookup.contains_key(
            (
                m.subrange(HEADER_LEN as int, question_end(m) - QUESTION_TAIL_LEN),
                be16(m[question_end(m) - QUESTION_TAIL_LEN], m[question_end(m) - QUESTION_TAIL_LEN + 1]) as u16,
            ),
        ),
    ensures
        rcode_of(reply(t, m)[3]) == NXDOMAIN,
        aa_of(reply(t, m)[2]),
{
    let s = label_starts(m, 0)->0;
    lemma_label_starts(m, 0);
    let e = name_end(s);
    assert(t.zones.contains(m.subrange(HEADER_LEN + s[0], HEADER_LEN + e)));
    assert(authoritative(t.zones, m, s));
    lemma_reply_flags(accepted_prefix(m, e, 0), Some(true), NXDOMAIN);
}

/// A well-formed question whose name has no label-aligned suffix among the
/// apexes is answered REFUSED without the authoritative bit.
pub proof fn lemma_out_of_zone_refused(t: ZoneTable, m: Seq<u8>)
    requires
        m.len() >= HEADER_LEN,
        gate_rcode(m) is None,
        label_starts(m, 0) is Some,
        forall|k: int|
            0 <= k < label_starts(m, 0)->0.len() ==> !#[trigger] t.zones.contains(
                m.subrange(
                    HEADER_LEN + label_starts(m, 0)->0[k],
                    question_end(m) - QUESTION_TAIL_LEN,
                ),
            ),
    ensures
        rcode_of(reply(t, m)[3]) == REFUSED,
        !aa_of(reply(t, m)[2]),
{
    let s = label_starts(m, 0)->0;
    lemma_label_starts(m, 0);
    assert(question_end(m) - QUESTION_TAIL_LEN == HEADER_LEN + name_end(s));
    assert(!authoritative(t.zones, m, s));
    lemma_reply_flags(accepted_prefix(m, name_end(s), 0), Some(false), REFUSED);
}

/// The TTL that a record chunk carries is sent back in answers as the same
/// four bytes, in the same order.
pub proof fn lemma_ttl_verbatim(c: Seq<u8>)
    requires
        c.len() >= 0x400,
    ensures
        u32_bytes(chunk_answer(c).1) == c.subrange(0xF4, 0xF8),
{
    lemma_u32_bytes_of_be32(c.subrange(0xF4, 0xF8));
}

/// Adding a record that is accepted keeps the table invariant.
pub proof fn lemma_insert_keeps_table_ok(t: ZoneTable, name: Seq<u8>, rtype: u16, a: (Seq<u8>, u32))
    requires
        table_ok(t),
        insert_record(t, name, rtype, a) is Ok,
    ensures
        table_ok(insert_record(t, name, rtype, a)->Ok_0),
{
    let u = add_to_table(t, name, rtype, a);
    let grown = rrset_of(t, name, rtype).push(a);
    assert(rrset_ok(name, grown)) by {
        assert forall|i: int| 0 <= i < grown.len() implies #[trigger] grown[i].0.len() <= MAX_RDATA_LEN by {
            if i < grown.len() - 1 {
                assert(grown[i] == rrset_of(t, name, rtype)[i]);
            }
        }
    }
    assert forall|k: (Seq<u8>, u16)| #[trigger] u.lookup.contains_key(k) implies rrset_ok(k.0, u.lookup[k]) by {
        if k != (name, rtype) {
            assert(t.lookup.contains_key(k));
        }
    }
    assert forall|n: Seq<u8>| #[trigger] u.zones.contains(n) implies wire_name_ok(n) && u.lookup.contains_key((n, SOA)) by {
        if !(rtype == SOA && n == name) {
            assert(t.zones.contains(n));
        }
    }
}

proof fn lemma_load_keeps_table_ok(t: ZoneTable, s: Seq<u8>, i: nat, n: nat)
    requires
        table_ok(t),
        load_records(t, s, i, n) is Ok,
    ensures
        table_ok(load_records(t, s, i, n)->Ok_0),
    decreases n - i,
{
    if i < n {
        let c = rest_from(s, CHUNK_LEN * (i + 1));
        let t2 = record_result(t, c)->Ok_0;
        lemma_insert_keeps_table_ok(t, chunk_name(c), chunk_type(c), chunk_answer(c));
        lemma_load_keeps_table_ok(t2, s, i + 1, n);
    }
}

/// Every table that a configuration stream yields keeps the table invariant:
/// each apex owns an SOA set, and each record set is non-empty, has a
/// well-formed owner, short rdata, and fits in one reply.
pub proof fn lemma_loaded_table_ok(stream: Seq<u8>)
    requires
        config_from(stream) is Ok,
    ensures
        table_ok(config_from(stream)->Ok_0),
{
    let n = header_result(stream)->Ok_0;
    lemma_load_keeps_table_ok(empty_table(), stream, 0, n as nat);
}

/// Loading one configuration stream twice gives the same zone set and the
/// same records, in the same order, for every (name, type).
pub proof fn lemma_config_deterministic(stream: Seq<u8>, a: ZoneTable, b: ZoneTable)
    requires
        config_from(stream) == Ok::<ZoneTable, crate::config::ConfigError>(a),
        config_from(stream) == Ok::<ZoneTable, crate::config::ConfigError>(b),
    ensures
        a.zones == b.zones,
        a.lookup == b.lookup,
{
}

} // verus!
