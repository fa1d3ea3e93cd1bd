use authdns::config::{check_wire_name, AnswerData, Config, ConfigError};
use authdns::stream::{parse_records, read_header_chunk, RecordChunk};

fn wire_name(name: &str) -> Vec<u8> {
    let mut out = Vec::new();
    for label in name.split('.').filter(|l| !l.is_empty()) {
        out.push(label.len() as u8);
        out.extend_from_slice(label.as_bytes());
    }
    out.push(0);
    out
}

fn header(count: u64, major: u32, minor: u32) -> Vec<u8> {
    let mut c = vec![0u8; 1024];
    c[0..8].copy_from_slice(b"DNSTREAM");
    c[8..16].copy_from_slice(&1u64.to_be_bytes());
    c[16..20].copy_from_slice(&major.to_be_bytes());
    c[20..24].copy_from_slice(&minor.to_be_bytes());
    c[0x3F8..0x400].copy_from_slice(&count.to_be_bytes());
    c
}

fn record(name: &[u8], rtype: u16, ttl: u32, rdata: &[u8]) -> Vec<u8> {
    let mut c = vec![0u8; 1024];
    c[0..8].copy_from_slice(b"RECORD\0\0");
    c[8..16].copy_from_slice(&1u64.to_be_bytes());
    c[16..20].copy_from_slice(&1u32.to_be_bytes());
    c[0xF4..0xF8].copy_from_slice(&ttl.to_be_bytes());
    c[0xF8..0xFA].copy_from_slice(&1u16.to_be_bytes());
    c[0xFA..0xFC].copy_from_slice(&rtype.to_be_bytes());
    c[0xFD] = name.len() as u8;
    c[0xFE..0x100].copy_from_slice(&(rdata.len() as u16).to_be_bytes());
    c[0x100..0x100 + name.len()].copy_from_slice(name);
    let n = rdata.len().min(512);
    c[0x200..0x200 + n].copy_from_slice(&rdata[..n]);
    c
}

fn stream(records: &[Vec<u8>]) -> Vec<u8> {
    let mut s = header(records.len() as u64, 1, 1);
    for r in records {
        s.extend_from_slice(r);
    }
    s
}

fn sample_stream() -> Vec<u8> {
    let apex = wire_name("example.com.");
    let www = wire_name("www.example.com.");
    stream(&[
        record(&apex, 6, 3600, &[1, 2, 3]),
        record(&apex, 1, 300, &[1, 2, 3, 4]),
        record(&www, 1, 60, &[5, 6, 7, 8]),
        record(&apex, 1, 300, &[9, 9, 9, 9]),
    ])
}

fn rdatas(v: &Vec<AnswerData>) -> Vec<(Vec<u8>, u32)> {
    v.iter().map(|a| (a.rdata.clone(), a.ttl)).collect()
}

#[test]
fn parsing_twice_gives_equal_tables() {
    let s = sample_stream();
    let a = parse_records(&s).unwrap();
    let b = parse_records(&s).unwrap();
    for name in ["example.com.", "www.example.com.", "com.", "other."] {
        let n = wire_name(name);
        assert_eq!(a.is_zone(&n), b.is_zone(&n));
        for t in [1u16, 6, 28] {
            let x = a.lookup(&n, t).map(rdatas);
            let y = b.lookup(&n, t).map(rdatas);
            assert_eq!(x, y);
        }
    }
}

#[test]
fn table_contents_follow_the_stream() {
    let cfg = parse_records(&sample_stream()).unwrap();
    let apex = wire_name("example.com.");
    let www = wire_name("www.example.com.");
    assert!(cfg.is_zone(&apex));
    assert!(!cfg.is_zone(&www));
    assert!(!cfg.is_zone(&wire_name("com.")));
    assert_eq!(
        rdatas(cfg.lookup(&apex, 1).unwrap()),
        vec![(vec![1, 2, 3, 4], 300), (vec![9, 9, 9, 9], 300)]
    );
    assert_eq!(rdatas(cfg.lookup(&apex, 6).unwrap()), vec![(vec![1, 2, 3], 3600)]);
    assert_eq!(rdatas(cfg.lookup(&www, 1).unwrap()), vec![(vec![5, 6, 7, 8], 60)]);
    assert!(cfg.lookup(&www, 6).is_none());
    assert!(cfg.lookup(&apex, 28).is_none());
}

#[test]
fn empty_stream_truncated() {
    assert!(matches!(parse_records(&[]), Err(ConfigError::Truncated)));
    assert!(matches!(parse_records(&[0u8; 1023]), Err(ConfigError::Truncated)));
}

#[test]
fn bad_header_signature_invalid() {
    let mut s = header(0, 1, 1);
    s[0] = b'X';
    assert!(matches!(parse_records(&s), Err(ConfigError::Invalid)));
}

#[test]
fn major_version_mismatch_invalid() {
    let s = header(0, 2, 1);
    assert!(matches!(parse_records(&s), Err(ConfigError::Invalid)));
    assert_eq!(read_header_chunk(&s), Err(ConfigError::Invalid));
}

#[test]
fn minor_version_mismatch_tolerated() {
    let s = header(0, 1, 77);
    assert_eq!(read_header_chunk(&s), Ok(0));
    let cfg = parse_records(&s).unwrap();
    assert!(!cfg.is_zone(&wire_name("example.com.")));
}

#[test]
fn section_length_must_be_one() {
    let mut s = header(0, 1, 1);
    s[15] = 2;
    assert_eq!(read_header_chunk(&s), Err(ConfigError::Invalid));
    let mut s = stream(&[record(&wire_name("a."), 1, 1, &[1])]);
    s[1024 + 15] = 0;
    assert!(matches!(parse_records(&s), Err(ConfigError::Invalid)));
}

#[test]
fn header_announces_record_count() {
    let s = header(0x0102030405060708, 1, 0);
    assert_eq!(read_header_chunk(&s), Ok(0x0102030405060708));
}

#[test]
fn short_record_chunk_truncated() {
    let mut s = header(2, 1, 1);
    s.extend_from_slice(&record(&wire_name("a."), 6, 1, &[1]));
    s.extend_from_slice(&[0u8; 1000]);
    assert!(matches!(parse_records(&s), Err(ConfigError::Truncated)));
}

#[test]
fn bad_record_signature_invalid() {
    let mut r = record(&wire_name("a."), 1, 1, &[1]);
    r[0] = b'r';
    assert!(matches!(parse_records(&stream(&[r])), Err(ConfigError::Invalid)));
}

#[test]
fn rdata_longer_than_512_invalid() {
    let mut r = record(&wire_name("a."), 1, 1, &[7; 512]);
    r[0xFE..0x100].copy_from_slice(&513u16.to_be_bytes());
    assert!(matches!(parse_records(&stream(&[r])), Err(ConfigError::Invalid)));
    let ok = record(&wire_name("a."), 1, 1, &[7; 512]);
    let cfg = parse_records(&stream(&[ok])).unwrap();
    assert_eq!(cfg.lookup(&wire_name("a."), 1).unwrap()[0].rdata.len(), 512);
}

#[test]
fn malformed_owner_name_invalid() {
    for name in [vec![], vec![1u8, b'a'], vec![0xC0, 0x0C], vec![0, 0], vec![3, b'a', 0]] {
        let s = stream(&[record(&name, 1, 1, &[1])]);
        assert!(matches!(parse_records(&s), Err(ConfigError::Invalid)));
    }
}

#[test]
fn oversized_rrset_invalid() {
    let name = wire_name("big.");
    let mut records = Vec::new();
    for _ in 0..125 {
        records.push(record(&name, 16, 1, &[1; 512]));
    }
    // 12 + 5 + 4 + 125 * 524 = 65521 bytes: a reply still fits
    let cfg = parse_records(&stream(&records)).unwrap();
    assert_eq!(cfg.lookup(&name, 16).unwrap().len(), 125);
    records.push(record(&name, 16, 1, &[1; 512]));
    assert!(matches!(parse_records(&stream(&records)), Err(ConfigError::Invalid)));
}

#[test]
fn trailing_bytes_ignored() {
    let mut s = sample_stream();
    s.extend_from_slice(&[0xAB; 3000]);
    let cfg = parse_records(&s).unwrap();
    assert!(cfg.is_zone(&wire_name("example.com.")));
}

#[test]
fn record_chunks_load_one_by_one() {
    let mut cfg = Config::new();
    let name = wire_name("x.y.");
    assert_eq!(cfg.load_record_chunk(&record(&name, 6, 5, &[1])), Ok(()));
    assert_eq!(cfg.load_record_chunk(&record(&name, 6, 6, &[2])), Ok(()));
    assert_eq!(cfg.load_record_chunk(&[0u8; 10]), Err(ConfigError::Truncated));
    assert!(cfg.is_zone(&name));
    assert_eq!(rdatas(cfg.lookup(&name, 6).unwrap()), vec![(vec![1], 5), (vec![2], 6)]);
}

#[test]
fn add_record_refusal_leaves_table() {
    let mut cfg = Config::new();
    let name = wire_name("k.");
    let r = cfg.add_record(name.clone(), 1, AnswerData { rdata: vec![1, 2], ttl: 9 });
    assert_eq!(r, Ok(()));
    let r = cfg.add_record(vec![5, b'a'], 1, AnswerData { rdata: vec![1], ttl: 9 });
    assert_eq!(r, Err(ConfigError::Invalid));
    let r = cfg.add_record(name.clone(), 1, AnswerData { rdata: vec![0; 513], ttl: 9 });
    assert_eq!(r, Err(ConfigError::Invalid));
    assert_eq!(rdatas(cfg.lookup(&name, 1).unwrap()), vec![(vec![1, 2], 9)]);
    assert!(!cfg.is_zone(&name));
}

#[test]
fn record_chunk_fields() {
    let name = wire_name("host.example.");
    let c = record(&name, 28, 0x01020304, &[0xFE, 0x80, 0, 1]);
    let rc = RecordChunk { bytes: &c };
    assert!(rc.signature_ok());
    assert_eq!(rc.section_length(), 1);
    assert_eq!(rc.get_wire_domain(), name);
    assert_eq!(rc.get_data(), vec![0xFE, 0x80, 0, 1]);
    assert_eq!(rc.dns_type(), 28);
    assert_eq!(rc.ttl(), 0x01020304);
    assert_eq!(rc.data_len(), 4);
}

#[test]
fn wire_name_checks() {
    assert!(check_wire_name(&wire_name("example.com.")));
    assert!(check_wire_name(&[0]));
    assert!(!check_wire_name(&[]));
    assert!(!check_wire_name(&[64, 0]));
    assert!(!check_wire_name(&[1, b'a', 0, 0]));
    assert!(!check_wire_name(&[2, b'a', 0]));
    let mut long = Vec::new();
    for _ in 0..4 {
        long.push(63u8);
        long.extend_from_slice(&[b'z'; 63]);
    }
    long.push(0);
    assert_eq!(long.len(), 257);
    assert!(!check_wire_name(&long));
}

#[test]
fn header_chunk_fields() {
    let c = header(3, 1, 9);
    let h = authdns::stream::HeaderChunk { bytes: &c };
    assert!(h.signature_ok());
    assert_eq!(h.section_length(), 1);
    assert_eq!(h.version_major(), 1);
    assert_eq!(h.version_minor(), 9);
    assert_eq!(h.num_records(), 3);
}
