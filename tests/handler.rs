use authdns::config::Config;
use authdns::handler::handle;
use authdns::stream::parse_records;

fn wire(name: &str) -> Vec<u8> {
    let mut out = Vec::new();
    for label in name.split('.').filter(|l| !l.is_empty()) {
        out.push(label.len() as u8);
        out.extend_from_slice(label.as_bytes());
    }
    out.push(0);
    out
}

fn header_chunk(count: u64) -> Vec<u8> {
    let mut c = vec![0u8; 1024];
    c[0..8].copy_from_slice(b"DNSTREAM");
    c[8..16].copy_from_slice(&1u64.to_be_bytes());
    c[16..20].copy_from_slice(&1u32.to_be_bytes());
    c[20..24].copy_from_slice(&1u32.to_be_bytes());
    c[0x3F8..0x400].copy_from_slice(&count.to_be_bytes());
    c
}

fn record_chunk(name: &[u8], rtype: u16, ttl: u32, rdata: &[u8]) -> Vec<u8> {
    let mut c = vec![0u8; 1024];
    c[0..8].copy_from_slice(b"RECORD\0\0");
    c[8..16].copy_from_slice(&1u64.to_be_bytes());
    c[16..20].copy_from_slice(&1u32.to_be_bytes());
    c[0xF4..0xF8].copy_from_slice(&ttl.to_be_bytes());
    c[0xF8..0xFA].copy_from_slice(&1u16.to_be_bytes());
    c[0xFA..0xFC].copy_from_slice(&rtype.to_be_bytes());
    c[0xFD] = name.len() as u8;
    c[0xFE..0x100].copy_from_slice(&(rdata.len() as u16).to_be_bytes());
    c[0x100..0x100 + name.len()].copy_from_slice(name);
    c[0x200..0x200 + rdata.len()].copy_from_slice(rdata);
    c
}

fn stream_of(records: &[Vec<u8>]) -> Vec<u8> {
    let mut s = header_chunk(records.len() as u64);
    for r in records {
        s.extend_from_slice(r);
    }
    s
}

const SOA_RDATA: &[u8] = &[0, 0, 0, 0, 0, 0, 0, 1];

fn example_config() -> Config {
    let apex = wire("example.com.");
    let s = stream_of(&[
        record_chunk(&apex, 6, 3600, SOA_RDATA),
        record_chunk(&apex, 1, 300, &[1, 2, 3, 4]),
    ]);
    parse_records(&s).unwrap()
}

fn query_with(flags: u16, qd: u16, an: u16, ns: u16, ar: u16, question: &[u8]) -> Vec<u8> {
    let mut q = Vec::new();
    q.extend_from_slice(&0x1234u16.to_be_bytes());
    q.extend_from_slice(&flags.to_be_bytes());
    q.extend_from_slice(&qd.to_be_bytes());
    q.extend_from_slice(&an.to_be_bytes());
    q.extend_from_slice(&ns.to_be_bytes());
    q.extend_from_slice(&ar.to_be_bytes());
    q.extend_from_slice(question);
    q
}

fn question(name: &str, qtype: u16) -> Vec<u8> {
    let mut q = wire(name);
    q.extend_from_slice(&qtype.to_be_bytes());
    q.extend_from_slice(&1u16.to_be_bytes());
    q
}

fn query(name: &str, qtype: u16) -> Vec<u8> {
    query_with(0x0100, 1, 0, 0, 0, &question(name, qtype))
}

/// Runs the handler on `msg` and returns the reply bytes.
fn run(config: &Config, msg: &[u8]) -> Vec<u8> {
    let mut buffer = vec![0u8; 0xFFFF];
    buffer[..msg.len()].copy_from_slice(msg);
    let mut size = msg.len();
    handle(config, &mut buffer, &mut size);
    buffer[..size].to_vec()
}

fn rcode(r: &[u8]) -> u8 {
    r[3] & 0x0F
}

fn aa(r: &[u8]) -> bool {
    r[2] & 0x04 != 0
}

fn count(r: &[u8], at: usize) -> u16 {
    u16::from_be_bytes([r[at], r[at + 1]])
}

#[test]
fn apex_a_hit() {
    let cfg = example_config();
    let q = query("example.com.", 1);
    let r = run(&cfg, &q);
    assert_eq!(&r[0..2], &[0x12, 0x34]);
    assert_eq!(r[2], 0x85);
    assert_eq!(r[3], 0x00);
    assert_eq!(count(&r, 4), 1);
    assert_eq!(count(&r, 6), 1);
    assert_eq!(count(&r, 8), 0);
    assert_eq!(count(&r, 10), 0);
    assert_eq!(&r[12..q.len()], &q[12..]);
    let answer = &r[q.len()..];
    assert_eq!(
        answer,
        &[0xC0, 0x0C, 0x00, 0x01, 0x00, 0x01, 0x00, 0x00, 0x01, 0x2C, 0x00, 0x04, 1, 2, 3, 4]
    );
    assert_eq!(r.len(), 12 + 13 + 4 + 16);
}

#[test]
fn nxdomain_by_type() {
    let cfg = example_config();
    let q = query("example.com.", 28);
    let r = run(&cfg, &q);
    assert_eq!(rcode(&r), 3);
    assert!(aa(&r));
    assert_eq!(count(&r, 6), 0);
    assert_eq!(r.len(), 12 + 13 + 4);
}

#[test]
fn out_of_zone_refused() {
    let cfg = example_config();
    let r = run(&cfg, &query("other.net.", 1));
    assert_eq!(rcode(&r), 5);
    assert!(!aa(&r));
    assert_eq!(count(&r, 6), 0);
    assert_eq!(r.len(), 12 + 11 + 4);
}

#[test]
fn rrset_keeps_insertion_order() {
    let name = wire("test.local.");
    let s = stream_of(&[
        record_chunk(&name, 6, 60, SOA_RDATA),
        record_chunk(&name, 1, 60, &[1, 1, 1, 1]),
        record_chunk(&name, 1, 60, &[1, 1, 1, 2]),
    ]);
    let cfg = parse_records(&s).unwrap();
    let q = query("test.local.", 1);
    let r = run(&cfg, &q);
    assert_eq!(rcode(&r), 0);
    assert_eq!(count(&r, 6), 2);
    let first = &r[q.len()..q.len() + 16];
    let second = &r[q.len() + 16..q.len() + 32];
    assert_eq!(&first[12..], &[1, 1, 1, 1]);
    assert_eq!(&second[12..], &[1, 1, 1, 2]);
    assert_eq!(r.len(), q.len() + 32);
}

#[test]
fn unknown_name_under_zone_nxdomain() {
    let cfg = example_config();
    let r = run(&cfg, &query("missing.example.com.", 1));
    assert_eq!(rcode(&r), 3);
    assert!(aa(&r));
    assert_eq!(count(&r, 6), 0);
}

#[test]
fn pointer_in_question_formerr() {
    let cfg = example_config();
    let q = query_with(0x0100, 1, 0, 0, 0, &[0xC0, 0x0C, 0x00, 0x01, 0x00, 0x01]);
    let r = run(&cfg, &q);
    assert_eq!(rcode(&r), 1);
    assert_eq!(r.len(), q.len());
    assert!(!aa(&r));
    assert_eq!(count(&r, 6), 0);
    assert_eq!(&r[4..], &q[4..]);
}

#[test]
fn reserved_label_type_formerr() {
    let cfg = example_config();
    let q = query_with(0x0100, 1, 0, 0, 0, &[0x40, 0x61, 0x00, 0x00, 0x01, 0x00, 0x01]);
    let r = run(&cfg, &q);
    assert_eq!(rcode(&r), 1);
    assert_eq!(r.len(), q.len());
}

#[test]
fn header_invariants_on_every_path() {
    let cfg = example_config();
    let inputs = vec![
        query("example.com.", 1),
        query("example.com.", 28),
        query("other.net.", 1),
        query_with(0x1100, 1, 0, 0, 0, &question("example.com.", 1)),
        query_with(0x0180, 2, 0, 0, 0, &question("example.com.", 1)),
        query_with(0x0100, 1, 1, 0, 0, &question("example.com.", 1)),
        query_with(0x0100, 1, 0, 0, 0, &[0xC0, 0x0C, 0, 1, 0, 1]),
        query_with(0x0100, 1, 0, 0, 0, &[]),
    ];
    for q in inputs {
        let r = run(&cfg, &q);
        assert!(r.len() >= 12);
        assert_eq!(&r[0..2], &[0x12, 0x34]);
        assert!(r[2] & 0x80 != 0);
        assert!(r[3] & 0x80 == 0);
    }
}

#[test]
fn counts_match_answers_and_extra_sections_cleared() {
    let cfg = example_config();
    let mut q = query_with(0x0100, 1, 0, 1, 1, &question("example.com.", 1));
    q.extend_from_slice(&[0, 0, 41, 16, 0, 0, 0, 0, 0, 0, 0]);
    let r = run(&cfg, &q);
    assert_eq!(rcode(&r), 0);
    assert_eq!(count(&r, 6), 1);
    assert_eq!(count(&r, 8), 0);
    assert_eq!(count(&r, 10), 0);
    assert_eq!(r.len(), 12 + 17 + 16);
    let r = run(&cfg, &query_with(0x0100, 1, 0, 3, 4, &question("other.net.", 1)));
    assert_eq!(count(&r, 6), 0);
    assert_eq!(count(&r, 8), 0);
    assert_eq!(count(&r, 10), 0);
}

#[test]
fn nonzero_opcode_notimp() {
    let cfg = example_config();
    let q = query_with(0x1100, 1, 0, 0, 0, &question("example.com.", 1));
    let r = run(&cfg, &q);
    assert_eq!(rcode(&r), 4);
    assert_eq!(r.len(), q.len());
    assert_eq!(r[2], 0x91);
}

#[test]
fn every_noerror_answer_starts_with_pointer() {
    let name = wire("multi.example.");
    let s = stream_of(&[
        record_chunk(&name, 6, 60, SOA_RDATA),
        record_chunk(&name, 16, 60, b"\x05hello"),
        record_chunk(&name, 16, 60, b""),
        record_chunk(&name, 16, 60, b"\x03abc"),
    ]);
    let cfg = parse_records(&s).unwrap();
    let q = query("multi.example.", 16);
    let r = run(&cfg, &q);
    assert_eq!(rcode(&r), 0);
    assert_eq!(count(&r, 6), 3);
    let mut at = q.len();
    let mut seen = 0;
    while at < r.len() {
        assert_eq!(&r[at..at + 2], &[0xC0, 0x0C]);
        let len = u16::from_be_bytes([r[at + 10], r[at + 11]]) as usize;
        at += 12 + len;
        seen += 1;
    }
    assert_eq!(at, r.len());
    assert_eq!(seen, 3);
}

#[test]
fn qdcount_two_refused() {
    let cfg = example_config();
    let q = query_with(0x0100, 2, 0, 0, 0, &question("example.com.", 1));
    let r = run(&cfg, &q);
    assert_eq!(rcode(&r), 5);
    assert_eq!(r.len(), q.len());
}

#[test]
fn answers_in_query_formerr() {
    let cfg = example_config();
    let q = query_with(0x0100, 1, 1, 0, 0, &question("example.com.", 1));
    let r = run(&cfg, &q);
    assert_eq!(rcode(&r), 1);
    assert_eq!(r.len(), q.len());
    assert_eq!(count(&r, 6), 1);
}

#[test]
fn apex_without_type_nxdomain() {
    let cfg = example_config();
    let r = run(&cfg, &query("example.com.", 15));
    assert_eq!(rcode(&r), 3);
    assert!(aa(&r));
}

#[test]
fn apex_soa_answered() {
    let cfg = example_config();
    let q = query("example.com.", 6);
    let r = run(&cfg, &q);
    assert_eq!(rcode(&r), 0);
    assert_eq!(count(&r, 6), 1);
    assert_eq!(&r[q.len() + 6..q.len() + 10], &3600u32.to_be_bytes());
    assert_eq!(&r[q.len() + 12..], SOA_RDATA);
}

#[test]
fn name_past_label_limit_formerr() {
    let cfg = example_config();
    // five labels of 63 bytes: the fifth starts at offset 256, the sixth would start past it
    let mut name = Vec::new();
    for _ in 0..5 {
        name.push(63u8);
        name.extend_from_slice(&[b'a'; 63]);
    }
    name.push(0);
    let mut qq = name.clone();
    qq.extend_from_slice(&[0, 1, 0, 1]);
    let q = query_with(0x0100, 1, 0, 0, 0, &qq);
    let r = run(&cfg, &q);
    assert_eq!(rcode(&r), 1);
    assert_eq!(r.len(), q.len());
}

#[test]
fn name_of_256_bytes_is_parsed() {
    let cfg = example_config();
    // 63 + 63 + 63 + 62-byte labels and the terminator: 256 bytes in all
    let mut name = Vec::new();
    for len in [63usize, 63, 63, 62] {
        name.push(len as u8);
        name.extend_from_slice(&vec![b'b'; len]);
    }
    name.push(0);
    assert_eq!(name.len(), 256);
    let mut qq = name.clone();
    qq.extend_from_slice(&[0, 1, 0, 1]);
    let q = query_with(0x0100, 1, 0, 0, 0, &qq);
    let r = run(&cfg, &q);
    assert_eq!(rcode(&r), 5);
    assert_eq!(r.len(), 12 + 256 + 4);
}

#[test]
fn truncated_question_formerr() {
    let cfg = example_config();
    let full = query("example.com.", 1);
    let q = &full[..full.len() - 1];
    let r = run(&cfg, q);
    assert_eq!(rcode(&r), 1);
    assert_eq!(r.len(), q.len());
    let bare = query_with(0x0100, 1, 0, 0, 0, &[]);
    let r = run(&cfg, &bare);
    assert_eq!(rcode(&r), 1);
    assert_eq!(r.len(), 12);
}

#[test]
fn trailing_bytes_after_question_dropped() {
    let cfg = example_config();
    let mut q = query("example.com.", 28);
    q.extend_from_slice(&[9, 9, 9, 9, 9]);
    let r = run(&cfg, &q);
    assert_eq!(rcode(&r), 3);
    assert_eq!(r.len(), 12 + 17);
}

#[test]
fn recursion_desired_kept_and_available_cleared() {
    let cfg = example_config();
    let r = run(&cfg, &query_with(0x0080, 1, 0, 0, 0, &question("example.com.", 1)));
    assert_eq!(r[2] & 0x01, 0);
    assert_eq!(r[3] & 0x80, 0);
    let r = run(&cfg, &query_with(0x0180, 1, 0, 0, 0, &question("example.com.", 1)));
    assert_eq!(r[2] & 0x01, 1);
    assert_eq!(r[3] & 0x80, 0);
}

#[test]
fn suffix_zone_makes_subdomain_authoritative() {
    let apex = wire("zone.test.");
    let host = wire("www.zone.test.");
    let s = stream_of(&[
        record_chunk(&apex, 6, 60, SOA_RDATA),
        record_chunk(&host, 1, 120, &[10, 0, 0, 1]),
    ]);
    let cfg = parse_records(&s).unwrap();
    let q = query("www.zone.test.", 1);
    let r = run(&cfg, &q);
    assert_eq!(rcode(&r), 0);
    assert!(aa(&r));
    assert_eq!(&r[q.len() + 12..], &[10, 0, 0, 1]);
    let r = run(&cfg, &query("WWW.zone.test.", 1));
    assert_eq!(rcode(&r), 3);
}
