//! The zone table: the apexes this server speaks for, and the record sets it
//! serves, keyed by owner name and record type.

use vstd::prelude::*;
use vstd::slice::slice_to_vec;

verus! {

/// Record type of a start-of-authority record; its owner becomes a zone apex.
pub const SOA: u16 = 6;

/// Longest wire name, terminator included.
pub const MAX_NAME_LEN: usize = 256;

/// Longest rdata a record may carry.
pub const MAX_RDATA_LEN: usize = 512;

/// Longest datagram, and the size of the buffer a query is handled in.
pub const MAX_MESSAGE_LEN: usize = 0xFFFF;

/// Why a configuration could not be loaded.
#[derive(Clone, Copy, Debug, PartialEq, Eq, Structural)]
pub enum ConfigError {
    /// The stream ended before a chunk that it announced.
    Truncated,
    /// A chunk breaks the format, or a record cannot be served.
    Invalid,
}

/// Whether the labels of `n` from offset `i` on are ordinary labels (length
/// 1 to 63) followed by the zero terminator, which is the last byte of `n`.
pub open spec fn labels_ok(n: Seq<u8>, i: int) -> bool
    decreases n.len() - i,
{
    if i < 0 || i >= n.len() {
        false
    } else if n[i] == 0 {
        i == n.len() - 1
    } else if n[i] < 0x40 && i + n[i] + 1 < n.len() {
        labels_ok(n, i + n[i] + 1)
    } else {
        false
    }
}

/// Whether `n` is a domain name in wire format without compression.
pub open spec fn wire_name_ok(n: Seq<u8>) -> bool {
    n.len() <= MAX_NAME_LEN && labels_ok(n, 0)
}

/// Tells whether `n` is a domain name in wire format without compression.
pub fn check_wire_name(n: &[u8]) -> (r: bool)
    ensures
        r == wire_name_ok(n@),
{
    if n.len() > MAX_NAME_LEN {
        return false;
    }
    let mut i: usize = 0;
    while i < n.len()
        invariant
            n@.len() <= MAX_NAME_LEN,
            labels_ok(n@, 0) == labels_ok(n@, i as int),
        decreases n@.len() - i,
    {
        let l = n[i];
        if l == 0 {
            return i == n.len() - 1;
        }
        if l >= 0x40 || i + l as usize + 1 >= n.len() {
            return false;
        }
        i = i + l as usize + 1;
    }
    false
}

/// One record of a record set: its rdata and its time to live.
pub struct AnswerData {
    pub rdata: Vec<u8>,
    pub ttl: u32,
}

impl View for AnswerData {
    type V = (Seq<u8>, u32);

    open spec fn view(&self) -> (Seq<u8>, u32) {
        (self.rdata@, self.ttl)
    }
}

/// The records of `v` as plain values.
pub open spec fn answers_view(v: Seq<AnswerData>) -> Seq<(Seq<u8>, u32)> {
    v.map_values(|a: AnswerData| a@)
}

/// Bytes taken by one answer block for each record of `s`: twelve fixed bytes and the rdata.
pub open spec fn answers_len(s: Seq<(Seq<u8>, u32)>) -> int
    decreases s.len(),
{
    if s.len() == 0 {
        0
    } else {
        answers_len(s.drop_last()) + 12 + s.last().0.len()
    }
}

/// Whether a reply to a question for `name` that carries every record of `s`
/// fits in one datagram.
pub open spec fn reply_fits(name: Seq<u8>, s: Seq<(Seq<u8>, u32)>) -> bool {
    12 + name.len() + 4 + answers_len(s) <= MAX_MESSAGE_LEN
}

/// The zone table as values: the apex names, and for each (owner name, type)
/// the records in the order they were added.
pub ghost struct ZoneTable {
    pub zones: Set<Seq<u8>>,
    pub lookup: Map<(Seq<u8>, u16), Seq<(Seq<u8>, u32)>>,
}

pub open spec fn empty_table() -> ZoneTable {
    ZoneTable { zones: Set::empty(), lookup: Map::empty() }
}

/// The records held for `(name, rtype)`, none if there is no such set.
pub open spec fn rrset_of(t: ZoneTable, name: Seq<u8>, rtype: u16) -> Seq<(Seq<u8>, u32)> {
    if t.lookup.contains_key((name, rtype)) {
        t.lookup[(name, rtype)]
    } else {
        seq![]
    }
}

/// `t` with `a` appended to the set of `(name, rtype)`; an SOA record also
/// makes `name` an apex.
pub open spec fn add_to_table(t: ZoneTable, name: Seq<u8>, rtype: u16, a: (Seq<u8>, u32)) -> ZoneTable {
    ZoneTable {
        zones: if rtype == SOA {
            t.zones.insert(name)
        } else {
            t.zones
        },
        lookup: t.lookup.insert((name, rtype), rrset_of(t, name, rtype).push(a)),
    }
}

/// Adding a record: refused when the owner name is malformed, the rdata too
/// long, or the grown set would no longer fit in a reply.
pub open spec fn insert_record(t: ZoneTable, name: Seq<u8>, rtype: u16, a: (Seq<u8>, u32)) -> Result<
    ZoneTable,
    ConfigError,
> {
    if wire_name_ok(name) && a.0.len() <= MAX_RDATA_LEN && reply_fits(
        name,
        rrset_of(t, name, rtype).push(a),
    ) {
        Ok(add_to_table(t, name, rtype, a))
    } else {
        Err(ConfigError::Invalid)
    }
}

/// What a loaded table keeps to: a record set is not empty, its owner is a
/// well-formed name, its rdata are short, and a reply with all of it fits.
pub open spec fn rrset_ok(name: Seq<u8>, s: Seq<(Seq<u8>, u32)>) -> bool {
    &&& wire_name_ok(name)
    &&& s.len() > 0
    &&& reply_fits(name, s)
    &&& forall|i: int| 0 <= i < s.len() ==> #[trigger] s[i].0.len() <= MAX_RDATA_LEN
}

/// What a loaded table keeps to: every apex is a well-formed name that owns an
/// SOA set, and every record set is sound.
pub open spec fn table_ok(t: ZoneTable) -> bool {
    &&& forall|n: Seq<u8>| #[trigger]
        t.zones.contains(n) ==> wire_name_ok(n) && t.lookup.contains_key((n, SOA))
    &&& forall|k: (Seq<u8>, u16)| #[trigger] t.lookup.contains_key(k) ==> rrset_ok(k.0, t.lookup[k])
}

/// The records of one (owner name, type).
struct RRset {
    name: Vec<u8>,
    rtype: u16,
    answers: Vec<AnswerData>,
    wire_len: usize,
}

impl RRset {
    spec fn key(&self) -> (Seq<u8>, u16) {
        (self.name@, self.rtype)
    }

    spec fn records(&self) -> Seq<(Seq<u8>, u32)> {
        answers_view(self.answers@)
    }

    spec fn wf(&self) -> bool {
        &&& rrset_ok(self.name@, self.records())
        &&& self.wire_len == answers_len(self.records())
    }
}

/// Whether `a` equals `b[start..end]`.
fn range_eq(a: &[u8], b: &[u8], start: usize, end: usize) -> (r: bool)
    requires
        start <= end <= b@.len(),
    ensures
        r == (a@ == b@.subrange(start as int, end as int)),
{
    if a.len() != end - start {
        return false;
    }
    let mut i: usize = 0;
    while i < a.len()
        invariant
            a@.len() == end - start,
            start <= end <= b@.len(),
            i <= a@.len(),
            forall|j: int| 0 <= j < i ==> a@[j] == b@[start + j],
        decreases a@.len() - i,
    {
        if a[i] != b[start + i] {
            assert(a@[i as int] != b@.subrange(start as int, end as int)[i as int]);
            return false;
        }
        i = i + 1;
    }
    assert(a@ =~= b@.subrange(start as int, end as int));
    true
}

/// The zone table that queries are answered from.
pub struct Config {
    zones: Vec<Vec<u8>>,
    rrsets: Vec<RRset>,
}

impl View for Config {
    type V = ZoneTable;

    closed spec fn view(&self) -> ZoneTable {
        ZoneTable {
            zones: Set::new(
                |n: Seq<u8>| exists|i: int| 0 <= i < self.zones.len() && #[trigger] self.zones[i]@ == n,
            ),
            lookup: Map::new(
                |k: (Seq<u8>, u16)|
                    exists|i: int| 0 <= i < self.rrsets.len() && #[trigger] self.rrsets[i].key() == k,
                |k: (Seq<u8>, u16)|
                    self.rrsets[choose|i: int|
                        0 <= i < self.rrsets.len() && #[trigger] self.rrsets[i].key() == k].records(),
            ),
        }
    }
}

impl Config {
    /// Keys are unique, every set is sound, and every apex owns an SOA set.
    pub closed spec fn wf(&self) -> bool {
        &&& forall|i: int, j: int|
            0 <= i < self.rrsets.len() && 0 <= j < self.rrsets.len() && i != j ==> #[trigger] self.rrsets[i].key()
                != #[trigger] self.rrsets[j].key()
        &&& forall|i: int| 0 <= i < self.rrsets.len() ==> #[trigger] self.rrsets[i].wf()
        &&& forall|i: int|
            0 <= i < self.zones.len() ==> wire_name_ok(#[trigger] self.zones[i]@) && exists|j: int|
                0 <= j < self.rrsets.len() && #[trigger] self.rrsets[j].key() == (self.zones[i]@, SOA)
    }

    proof fn lemma_lookup_at(&self, i: int)
        requires
            self.wf(),
            0 <= i < self.rrsets.len(),
        ensures
            self@.lookup.contains_key(self.rrsets[i].key()),
            self@.lookup[self.rrsets[i].key()] == self.rrsets[i].records(),
    {
        let k = self.rrsets[i].key();
        assert(self@.lookup.contains_key(k));
        let j = choose|j: int| 0 <= j < self.rrsets.len() && #[trigger] self.rrsets[j].key() == k;
        assert(i == j);
    }

    /// The view satisfies the table's invariant.
    pub proof fn lemma_table_ok(&self)
        requires
            self.wf(),
        ensures
            table_ok(self@),
    {
        assert forall|k: (Seq<u8>, u16)| #[trigger] self@.lookup.contains_key(k) implies rrset_ok(
            k.0,
            self@.lookup[k],
        ) by {
            let i = choose|i: int| 0 <= i < self.rrsets.len() && #[trigger] self.rrsets[i].key() == k;
            self.lemma_lookup_at(i);
            assert(self.rrsets[i].wf());
        }
        assert forall|n: Seq<u8>| #[trigger]
            self@.zones.contains(n) implies wire_name_ok(n) && self@.lookup.contains_key((n, SOA)) by {
            let i = choose|i: int| 0 <= i < self.zones.len() && #[trigger] self.zones[i]@ == n;
            let j = choose|j: int|
                0 <= j < self.rrsets.len() && #[trigger] self.rrsets[j].key() == (self.zones[i]@, SOA);
            self.lemma_lookup_at(j);
        }
    }

    /// An empty table.
    pub fn new() -> (r: Config)
        ensures
            r.wf(),
            r@ == empty_table(),
    {
        let r = Config { zones: Vec::new(), rrsets: Vec::new() };
        assert(r@.zones =~= Set::empty());
        assert(r@.lookup =~= Map::empty());
        r
    }

    /// Position of the set keyed by `(bytes[start..end], rtype)`.
    fn find_index(&self, bytes: &[u8], start: usize, end: usize, rtype: u16) -> (r: Option<usize>)
        requires
            start <= end <= bytes@.len(),
        ensures
            match r {
                Some(i) => i < self.rrsets.len() && self.rrsets[i as int].key() == (
                    bytes@.subrange(start as int, end as int),
                    rtype,
                ),
                None => forall|i: int|
                    0 <= i < self.rrsets.len() ==> #[trigger] self.rrsets[i].key() != (
                        bytes@.subrange(start as int, end as int),
                        rtype,
                    ),
            },
    {
        let mut i: usize = 0;
        while i < self.rrsets.len()
            invariant
                start <= end <= bytes@.len(),
                forall|j: int|
                    0 <= j < i ==> #[trigger] self.rrsets[j].key() != (
                        bytes@.subrange(start as int, end as int),
                        rtype,
                    ),
            decreases self.rrsets.len() - i,
        {
            let rr = &self.rrsets[i];
            if rr.rtype == rtype && range_eq(rr.name.as_slice(), bytes, start, end) {
                return Some(i);
            }
            i = i + 1;
        }
        None
    }

    /// Whether `bytes[start..end]` is an apex of the table.
    pub fn has_zone_at(&self, bytes: &[u8], start: usize, end: usize) -> (r: bool)
        requires
            start <= end <= bytes@.len(),
        ensures
            r == self@.zones.contains(bytes@.subrange(start as int, end as int)),
    {
        let mut i: usize = 0;
        while i < self.zones.len()
            invariant
                start <= end <= bytes@.len(),
                forall|j: int|
                    0 <= j < i ==> #[trigger] self.zones[j]@ != bytes@.subrange(
                        start as int,
                        end as int,
                    ),
            decreases self.zones.len() - i,
        {
            if range_eq(self.zones[i].as_slice(), bytes, start, end) {
                return true;
            }
            i = i + 1;
        }
        false
    }

    /// Whether `name` is an apex of the table.
    pub fn is_zone(&self, name: &[u8]) -> (r: bool)
        ensures
            r == self@.zones.contains(name@),
    {
        let r = self.has_zone_at(name, 0, name.len());
        assert(name@.subrange(0, name@.len() as int) =~= name@);
        r
    }

    /// The records held for `(bytes[start..end], rtype)`.
    pub fn lookup_at(&self, bytes: &[u8], start: usize, end: usize, rtype: u16) -> (r: Option<
        &Vec<AnswerData>,
    >)
        requires
            self.wf(),
            start <= end <= bytes@.len(),
        ensures
            match r {
                Some(v) => self@.lookup.contains_key((bytes@.subrange(start as int, end as int), rtype))
                    && answers_view(v@) == self@.lookup[(
                    bytes@.subrange(start as int, end as int),
                    rtype,
                )],
                None => !self@.lookup.contains_key((bytes@.subrange(start as int, end as int), rtype)),
            },
    {
        match self.find_index(bytes, start, end, rtype) {
            Some(i) => {
                proof {
                    self.lemma_lookup_at(i as int);
                }
                Some(&self.rrsets[i].answers)
            },
            None => None,
        }
    }

    /// The records held for `(name, rtype)`, in the order they were added.
    pub fn lookup(&self, name: &[u8], rtype: u16) -> (r: Option<&Vec<AnswerData>>)
        requires
            self.wf(),
        ensures
            match r {
                Some(v) => self@.lookup.contains_key((name@, rtype)) && answers_view(v@)
                    == self@.lookup[(name@, rtype)],
                None => !self@.lookup.contains_key((name@, rtype)),
            },
    {
        assert(name@.subrange(0, name@.len() as int) =~= name@);
        self.lookup_at(name, 0, name.len(), rtype)
    }

    /// Appends `answer` to the set of `(name, rtype)`, creating the set when it
    /// is new; an SOA record also makes `name` an apex. A refused record
    /// leaves the table as it was.
    pub fn add_record(&mut self, name: Vec<u8>, rtype: u16, answer: AnswerData) -> (r: Result<
        (),
        ConfigError,
    >)
        requires
            old(self).wf(),
        ensures
            final(self).wf(),
            match insert_record(old(self)@, name@, rtype, answer@) {
                Ok(t) => r == Ok::<(), ConfigError>(()) && final(self)@ == t,
                Err(e) => r == Err::<(), ConfigError>(e) && final(self)@ == old(self)@,
            },
    {
        let ghost k = (name@, rtype);
        let ghost a = answer@;
        let ghost pre = old(self)@;
        if !check_wire_name(name.as_slice()) || answer.rdata.len() > MAX_RDATA_LEN {
            return Err(ConfigError::Invalid);
        }
        let found = self.find_index(name.as_slice(), 0, name.len(), rtype);
        proof {
            assert(name@.subrange(0, name@.len() as int) =~= name@);
            match found {
                Some(i) => {
                    self.lemma_lookup_at(i as int);
                    assert(self.rrsets[i as int].wf());
                },
                None => {},
            }
        }
        let prior: usize = match found {
            Some(i) => self.rrsets[i].wire_len,
            None => 0,
        };
        assert(prior == answers_len(rrset_of(pre, name@, rtype)));
        assert(rrset_of(pre, name@, rtype).push(a).drop_last() =~= rrset_of(pre, name@, rtype));
        let grown = prior + 12 + answer.rdata.len();
        // header, question name, QTYPE and QCLASS, then the answers
        if 16 + name.len() + grown > MAX_MESSAGE_LEN {
            return Err(ConfigError::Invalid);
        }
        let new_zone = rtype == SOA && !self.is_zone(name.as_slice());
        let zone_name = if new_zone {
            Some(slice_to_vec(name.as_slice()))
        } else {
            None
        };
        match found {
            Some(i) => {
                self.rrsets[i].answers.push(answer);
                self.rrsets[i].wire_len = grown;
            },
            None => {
                let mut answers = Vec::new();
                answers.push(answer);
                self.rrsets.push(RRset { name, rtype, answers, wire_len: grown });
            },
        }
        match zone_name {
            Some(z) => {
                self.zones.push(z);
            },
            None => {},
        }
        proof {
            let post = *self;
            let before = *old(self);
            let expected = pre.lookup.insert(k, rrset_of(pre, k.0, k.1).push(a));
            let at = match found { Some(i) => i as int, None => before.rrsets.len() as int };
            assert(post.rrsets[at].key() == k);
            assert(post.rrsets[at].records() =~= rrset_of(pre, k.0, k.1).push(a));
            let grown_set = rrset_of(pre, k.0, k.1).push(a);
            assert(answers_len(grown_set) == prior + 12 + a.0.len());
            assert(post.rrsets[at].wire_len == answers_len(post.rrsets[at].records()));
            assert(reply_fits(k.0, grown_set));
            assert(forall|j: int| 0 <= j < grown_set.len() ==> #[trigger] grown_set[j].0.len() <= MAX_RDATA_LEN);
            assert(post.rrsets[at].wf());
            assert forall|j: int| 0 <= j < post.rrsets.len() && j != at implies post.rrsets[j] == before.rrsets[j] by {}
            assert(post.wf());
            assert forall|k2: (Seq<u8>, u16)| #[trigger] post@.lookup.contains_key(k2) == expected.contains_key(k2) by {
                if pre.lookup.contains_key(k2) {
                    let j = choose|j: int| 0 <= j < before.rrsets.len() && #[trigger] before.rrsets[j].key() == k2;
                    assert(post.rrsets[j].key() == k2);
                }
                if post@.lookup.contains_key(k2) {
                    let j = choose|j: int| 0 <= j < post.rrsets.len() && #[trigger] post.rrsets[j].key() == k2;
                    if j != at {
                        assert(before.rrsets[j].key() == k2);
                    }
                }
            }
            assert forall|k2: (Seq<u8>, u16)| #[trigger] post@.lookup.contains_key(k2) implies post@.lookup[k2] == expected[k2] by {
                let j = choose|j: int| 0 <= j < post.rrsets.len() && #[trigger] post.rrsets[j].key() == k2;
                post.lemma_lookup_at(j);
                if j != at {
                    before.lemma_lookup_at(j);
                }
            }
            assert(post@.lookup =~= expected);
            assert(post@.zones =~= add_to_table(pre, k.0, k.1, a).zones) by {
                if rtype == SOA && !new_zone {
                    assert(pre.zones.contains(name@));
                }
                if new_zone {
                    assert(post.zones[post.zones.len() - 1]@ == name@);
                }
                assert forall|n: Seq<u8>| pre.zones.contains(n) implies #[trigger] post@.zones.contains(n) by {
                    let j = choose|j: int| 0 <= j < before.zones.len() && #[trigger] before.zones[j]@ == n;
                    assert(post.zones[j]@ == n);
                }
            }
        }
        Ok(())
    }
}

} // verus!
