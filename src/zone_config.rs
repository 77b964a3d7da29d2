use vstd::prelude::*;
use vstd::string::*;
use vstd::utf8::*;

use crate::answer::{RData, RDataView};
use crate::record_type::Type;

verus! {

/// The time-to-live of answers from a zone that sets none, and of every lookup that no zone
/// owns.
pub const DEFAULT_TTL: u32 = 5;

/// One configured record: its name relative to its zone (empty at the zone's apex), its kind
/// and its data.
#[derive(Debug, PartialEq)]
pub struct Record {
    pub name: String,
    pub record_type: Type,
    pub rdata: RData,
}

/// What a record holds.
pub struct RecordView {
    pub name: Seq<char>,
    pub record_type: Type,
    pub rdata: RDataView,
}

impl View for Record {
    type V = RecordView;

    open spec fn view(&self) -> RecordView {
        RecordView { name: self.name@, record_type: self.record_type, rdata: self.rdata@ }
    }
}

impl Clone for Record {
    fn clone(&self) -> (r: Record)
        ensures
            r@ == self@,
    {
        Record { name: self.name.clone(), record_type: self.record_type, rdata: self.rdata.clone() }
    }
}

/// Why a record of the configuration could not be built.
#[derive(Debug, Clone, Copy, PartialEq, Eq, Structural)]
pub enum ConfigError {
    /// The kind is none of A, NS, CNAME and AAAA.
    UnknownKind,
    /// An A record's address is not an IPv4 address.
    InvalidIpv4,
    /// An AAAA record's address is not an IPv6 address.
    InvalidIpv6,
}

/// The kind that a configuration token names: only A, NS, CNAME and AAAA are accepted.
pub open spec fn kind_of_token(t: Seq<char>) -> Option<Type> {
    if t == seq!['A'] {
        Some(Type::A)
    } else if t == seq!['N', 'S'] {
        Some(Type::NS)
    } else if t == seq!['C', 'N', 'A', 'M', 'E'] {
        Some(Type::CNAME)
    } else if t == seq!['A', 'A', 'A', 'A'] {
        Some(Type::AAAA)
    } else {
        None
    }
}

/// Reads the kind token of a configured record.
pub fn record_kind_from_token(token: &str) -> (r: Option<Type>)
    ensures
        r == kind_of_token(token@),
{
    let t = token.to_owned();
    proof {
        reveal_strlit("A");
        reveal_strlit("NS");
        reveal_strlit("CNAME");
        reveal_strlit("AAAA");
        assert("A"@ =~= seq!['A']);
        assert("NS"@ =~= seq!['N', 'S']);
        assert("CNAME"@ =~= seq!['C', 'N', 'A', 'M', 'E']);
        assert("AAAA"@ =~= seq!['A', 'A', 'A', 'A']);
    }
    if t == "A".to_owned() {
        Some(Type::A)
    } else if t == "NS".to_owned() {
        Some(Type::NS)
    } else if t == "CNAME".to_owned() {
        Some(Type::CNAME)
    } else if t == "AAAA".to_owned() {
        Some(Type::AAAA)
    } else {
        None
    }
}

/// Builds a configured record from its name, its kind token and its address text. The
/// address of an A or AAAA record comes as `ipv4` or `ipv6`, the text read as such an
/// address when it is one; that of an NS or CNAME record is the text itself, a name.
pub fn record_from_config(
    name: String,
    kind: &str,
    address: String,
    ipv4: Option<[u8; 4]>,
    ipv6: Option<[u8; 16]>,
) -> (r: Result<Record, ConfigError>)
    ensures
        kind_of_token(kind@) is None ==> r == Err::<Record, ConfigError>(ConfigError::UnknownKind),
        kind_of_token(kind@) == Some(Type::A) ==> match ipv4 {
            Some(o) => r matches Ok(rec) && rec@ == (RecordView {
                name: name@,
                record_type: Type::A,
                rdata: RDataView::A(o@),
            }),
            None => r == Err::<Record, ConfigError>(ConfigError::InvalidIpv4),
        },
        kind_of_token(kind@) == Some(Type::AAAA) ==> match ipv6 {
            Some(o) => r matches Ok(rec) && rec@ == (RecordView {
                name: name@,
                record_type: Type::AAAA,
                rdata: RDataView::AAAA(o@),
            }),
            None => r == Err::<Record, ConfigError>(ConfigError::InvalidIpv6),
        },
        kind_of_token(kind@) == Some(Type::NS) ==> (r matches Ok(rec) && rec@ == (RecordView {
            name: name@,
            record_type: Type::NS,
            rdata: RDataView::NS(encode_utf8(address@)),
        })),
        kind_of_token(kind@) == Some(Type::CNAME) ==> (r matches Ok(rec) && rec@ == (RecordView {
            name: name@,
            record_type: Type::CNAME,
            rdata: RDataView::CNAME(encode_utf8(address@)),
        })),
{
    let record_type = match record_kind_from_token(kind) {
        Some(t) => t,
        None => {
            return Err(ConfigError::UnknownKind);
        },
    };
    let rdata = match record_type {
        Type::A => match ipv4 {
            Some(o) => RData::A(o),
            None => {
                return Err(ConfigError::InvalidIpv4);
            },
        },
        Type::AAAA => match ipv6 {
            Some(o) => RData::AAAA(o),
            None => {
                return Err(ConfigError::InvalidIpv6);
            },
        },
        Type::NS => RData::NS(address),
        _ => RData::CNAME(address),
    };
    Ok(Record { name, record_type, rdata })
}

/// A zone: an optional time-to-live for its answers and its records, in order.
#[derive(Debug)]
pub struct Zone {
    pub ttl: Option<u32>,
    pub records: Vec<Record>,
}

/// The record store: named zones, each name at most once, in a fixed order that lookups
/// follow.
#[derive(Debug)]
pub struct ZoneConfig {
    pub zones: Vec<(String, Zone)>,
}

impl ZoneConfig {
    /// No two zones share a name.
    pub open spec fn wf(&self) -> bool {
        forall|i: int, j: int|
            0 <= i < j < self.zones@.len() ==> #[trigger] self.zones@[i].0@
                != #[trigger] self.zones@[j].0@
    }

    pub fn new() -> (r: ZoneConfig)
        ensures
            r.wf(),
            r.zones@.len() == 0,
    {
        ZoneConfig { zones: Vec::new() }
    }

    /// Adds `zone` under `name`: a zone that already has that name gives way to it in its
    /// place; otherwise it goes last.
    pub fn insert(&mut self, name: String, zone: Zone)
        requires
            old(self).wf(),
        ensures
            final(self).wf(),
            (exists|i: int| 0 <= i < old(self).zones@.len() && #[trigger] old(self).zones@[i].0@ == name@)
                ==> exists|i: int|
                0 <= i < old(self).zones@.len() && #[trigger] old(self).zones@[i].0@ == name@
                    && final(self).zones@ == old(self).zones@.update(i, (name, zone)),
            !(exists|i: int| 0 <= i < old(self).zones@.len() && #[trigger] old(self).zones@[i].0@ == name@)
                ==> final(self).zones@ == old(self).zones@.push((name, zone)),
    {
        let mut i: usize = 0;
        while i < self.zones.len()
            invariant
                i <= self.zones@.len(),
                self == old(self),
                old(self).wf(),
                forall|j: int| 0 <= j < i ==> #[trigger] self.zones@[j].0@ != name@,
            decreases self.zones@.len() - i,
        {
            if self.zones[i].0 == name {
                let ghost before = self.zones@;
                self.zones.remove(i);
                self.zones.insert(i, (name, zone));
                proof {
                    assert(self.zones@ =~= before.update(i as int, (name, zone)));
                    assert(self.zones@[i as int].0@ == before[i as int].0@);
                    assert forall|a: int, b: int| 0 <= a < b < self.zones@.len() implies #[trigger] self.zones@[a].0@ != #[trigger] self.zones@[b].0@ by {
                        assert(self.zones@[a].0@ == before[a].0@);
                        assert(self.zones@[b].0@ == before[b].0@);
                    }
                }
                return;
            }
            i = i + 1;
        }
        let ghost before = self.zones@;
        self.zones.push((name, zone));
        proof {
            assert forall|a: int, b: int| 0 <= a < b < self.zones@.len() implies #[trigger] self.zones@[a].0@ != #[trigger] self.zones@[b].0@ by {
                if b < before.len() {
                    assert(self.zones@[a] == before[a]);
                    assert(self.zones@[b] == before[b]);
                } else {
                    assert(self.zones@[a] == before[a]);
                    assert(self.zones@[b] == (name, zone));
                }
            }
        }
    }
}

/// The full name of the record named `rel` in the zone named `zone`: the zone's own name when
/// `rel` is empty, `rel.zone` otherwise.
pub open spec fn absolute_name(zone: Seq<char>, rel: Seq<char>) -> Seq<char> {
    if rel.len() == 0 {
        zone
    } else {
        rel + seq!['.'] + zone
    }
}

/// The records among `records`, in order, whose full name under `zone` is `domain` and whose
/// kind is `kind`.
pub open spec fn zone_matches(zone: Seq<char>, records: Seq<Record>, domain: Seq<char>, kind: Type) -> Seq<
    RecordView,
>
    decreases records.len(),
{
    if records.len() == 0 {
        Seq::empty()
    } else {
        let init = zone_matches(zone, records.drop_last(), domain, kind);
        let r = records.last();
        if absolute_name(zone, r.name@) == domain && r.record_type == kind {
            init.push(r@)
        } else {
            init
        }
    }
}

/// Some record of the zone named `zone` has the full name `domain`.
pub open spec fn zone_owns(zone: Seq<char>, records: Seq<Record>, domain: Seq<char>) -> bool {
    exists|i: int| 0 <= i < records.len() && absolute_name(zone, #[trigger] records[i].name@) == domain
}

/// The records that answer `domain` and `kind`: zone by zone in the store's order, each
/// zone's matches in its own order.
pub open spec fn lookup_records(zones: Seq<(String, Zone)>, domain: Seq<char>, kind: Type) -> Seq<
    RecordView,
>
    decreases zones.len(),
{
    if zones.len() == 0 {
        Seq::empty()
    } else {
        lookup_records(zones.drop_last(), domain, kind) + zone_matches(
            zones.last().0@,
            zones.last().1.records@,
            domain,
            kind,
        )
    }
}

/// The time-to-live of the answers for `domain`: that of the first zone in order with a
/// record of that full name, whatever its kind; the default when that zone sets none or when
/// no zone has such a record.
pub open spec fn lookup_ttl(zones: Seq<(String, Zone)>, domain: Seq<char>) -> u32
    decreases zones.len(),
{
    if zones.len() == 0 {
        DEFAULT_TTL
    } else if zone_owns(zones[0].0@, zones[0].1.records@, domain) {
        match zones[0].1.ttl {
            Some(t) => t,
            None => DEFAULT_TTL,
        }
    } else {
        lookup_ttl(zones.skip(1), domain)
    }
}

/// The encoding of two texts one after the other is the two encodings one after the other.
pub proof fn lemma_encode_utf8_concat(a: Seq<char>, b: Seq<char>)
    ensures
        encode_utf8(a + b) == encode_utf8(a) + encode_utf8(b),
    decreases a.len(),
{
    if a.len() == 0 {
        assert(a + b =~= b);
        assert(encode_utf8(a) =~= Seq::<u8>::empty());
        assert(encode_utf8(a) + encode_utf8(b) =~= encode_utf8(b));
    } else {
        assert((a + b).drop_first() =~= a.drop_first() + b);
        assert((a + b)[0] == a[0]);
        lemma_encode_utf8_concat(a.drop_first(), b);
        assert(encode_utf8(a + b) =~= encode_utf8(a) + encode_utf8(b));
    }
}

/// `s` ends with `suffix`, byte for byte.
fn ends_with(s: &[u8], suffix: &[u8]) -> (r: bool)
    ensures
        r == (suffix@.len() <= s@.len() && s@.skip(s@.len() - suffix@.len()) == suffix@),
{
    if suffix.len() > s.len() {
        return false;
    }
    let offset = s.len() - suffix.len();
    let mut i: usize = 0;
    while i < suffix.len()
        invariant
            offset + suffix@.len() == s@.len(),
            s@.len() == s.len(),
            suffix@.len() == suffix.len(),
            i <= suffix@.len(),
            forall|j: int| 0 <= j < i ==> s@[offset + j] == suffix@[j],
        decreases suffix@.len() - i,
    {
        if s[offset + i] != suffix[i] {
            assert(s@.skip(offset as int)[i as int] != suffix@[i as int]);
            return false;
        }
        i = i + 1;
    }
    assert(s@.skip(offset as int) =~= suffix@);
    true
}

/// When a record's full name is `domain`, the zone's name is a byte suffix of `domain`.
proof fn lemma_owner_is_suffix(zone: Seq<char>, rel: Seq<char>, domain: Seq<char>)
    requires
        absolute_name(zone, rel) == domain,
    ensures
        encode_utf8(zone).len() <= encode_utf8(domain).len(),
        encode_utf8(domain).skip(encode_utf8(domain).len() - encode_utf8(zone).len())
            == encode_utf8(zone),
{
    if rel.len() == 0 {
        assert(encode_utf8(domain).skip(0) =~= encode_utf8(domain));
    } else {
        lemma_encode_utf8_concat(rel + seq!['.'], zone);
        let p = encode_utf8(rel + seq!['.']);
        assert((p + encode_utf8(zone)).skip(p.len() as int) =~= encode_utf8(zone));
    }
}

/// Looks up the records of kind `record_type` whose full name is `domain`, with the
/// time-to-live their answers carry.
pub fn find_record(config: &ZoneConfig, domain: &str, record_type: Type) -> (r: (Vec<Record>, u32))
    ensures
        r.0@.map_values(|x: Record| x@) == lookup_records(config.zones@, domain@, record_type),
        r.1 == lookup_ttl(config.zones@, domain@),
{
    let target = domain.to_owned();
    let dbytes = domain.as_bytes();
    let ghost zones = config.zones@;
    let mut results: Vec<Record> = Vec::new();
    let mut ttl: u32 = DEFAULT_TTL;
    let mut found = false;
    let mut zi: usize = 0;
    proof {
        reveal_strlit(".");
        assert(results@.map_values(|x: Record| x@) =~= lookup_records(zones.take(0), domain@, record_type));
        assert(zones.skip(0) =~= zones);
    }
    while zi < config.zones.len()
        invariant
            zones == config.zones@,
            target@ == domain@,
            dbytes@ == encode_utf8(domain@),
            "."@ == seq!['.'],
            zi <= zones.len(),
            results@.map_values(|x: Record| x@) == lookup_records(zones.take(zi as int), domain@, record_type),
            found ==> ttl == lookup_ttl(zones, domain@),
            !found ==> ttl == DEFAULT_TTL,
            !found ==> lookup_ttl(zones, domain@) == lookup_ttl(zones.skip(zi as int), domain@),
        decreases zones.len() - zi,
    {
        let zone_name = &config.zones[zi].0;
        let zone = &config.zones[zi].1;
        let ghost before = results@.map_values(|x: Record| x@);
        let ghost rest = zones.skip(zi as int);
        proof {
            assert(zones.take(zi + 1).drop_last() =~= zones.take(zi as int));
            assert(rest[0] == zones[zi as int]);
            assert(rest.skip(1) =~= zones.skip(zi + 1));
        }
        if !ends_with(dbytes, zone_name.as_str().as_bytes()) {
            proof {
                assert forall|k: int| 0 <= k < zone.records@.len() implies absolute_name(zone_name@, #[trigger] zone.records@[k].name@) != domain@ by {
                    if absolute_name(zone_name@, zone.records@[k].name@) == domain@ {
                        lemma_owner_is_suffix(zone_name@, zone.records@[k].name@, domain@);
                    }
                }
                assert(zone_matches(zone_name@, zone.records@, domain@, record_type) =~= Seq::<RecordView>::empty()) by {
                    lemma_no_owner_no_match(zone_name@, zone.records@, domain@, record_type);
                }
                assert(before + Seq::<RecordView>::empty() =~= before);
                assert(!zone_owns(zone_name@, zone.records@, domain@));
            }
            zi = zi + 1;
            continue;
        }
        let mut ri: usize = 0;
        proof {
            assert(zone.records@.take(0) =~= Seq::<Record>::empty());
            assert(before + Seq::<RecordView>::empty() =~= before);
        }
        while ri < zone.records.len()
            invariant
                zones == config.zones@,
                zi < zones.len(),
                zone_name == &zones[zi as int].0,
                zone == &zones[zi as int].1,
                rest == zones.skip(zi as int),
                rest[0] == zones[zi as int],
                target@ == domain@,
                ".".view() == seq!['.'],
                ri <= zone.records@.len(),
                results@.map_values(|x: Record| x@) == before + zone_matches(
                    zone_name@,
                    zone.records@.take(ri as int),
                    domain@,
                    record_type,
                ),
                found ==> ttl == lookup_ttl(zones, domain@),
                !found ==> ttl == DEFAULT_TTL,
                !found ==> lookup_ttl(zones, domain@) == lookup_ttl(rest, domain@),
                !found ==> !zone_owns(zone_name@, zone.records@.take(ri as int), domain@),
            decreases zone.records@.len() - ri,
        {
            let record = &zone.records[ri];
            let combined = if record.name.as_str().is_empty() {
                zone_name.clone()
            } else {
                let mut s = record.name.clone();
                s.append(".");
                s.append(zone_name.as_str());
                s
            };
            proof {
                assert(zone.records@.take(ri + 1).drop_last() =~= zone.records@.take(ri as int));
                assert(zone.records@.take(ri + 1).last() == zone.records@[ri as int]);
                assert(combined@ == absolute_name(zone_name@, record.name@));
            }
            if combined == target {
                if !found {
                    found = true;
                    ttl = match zone.ttl {
                        Some(t) => t,
                        None => DEFAULT_TTL,
                    };
                    proof {
                        assert(zone_owns(zone_name@, zone.records@, domain@)) by {
                            assert(absolute_name(zone_name@, zone.records@[ri as int].name@) == domain@);
                        }
                    }
                }
                if record.record_type == record_type {
                    let ghost prev = results@.map_values(|x: Record| x@);
                    results.push(record.clone());
                    proof {
                        assert(results@.map_values(|x: Record| x@) =~= prev.push(record@));
                    }
                }
            } else {
                proof {
                    if !found {
                    assert forall|k: int| 0 <= k < ri + 1 implies absolute_name(zone_name@, #[trigger] zone.records@.take(ri + 1)[k].name@) != domain@ by {
                        if k < ri {
                            assert(zone.records@.take(ri + 1)[k] == zone.records@.take(ri as int)[k]);
                        }
                    }
                    }
                }
            }
            ri = ri + 1;
        }
        proof {
            assert(zone.records@.take(ri as int) =~= zone.records@);
        }
        zi = zi + 1;
        proof {
            if !found {
                assert(!zone_owns(zone_name@, zone.records@, domain@));
            }
        }
    }
    proof {
        assert(zones.take(zi as int) =~= zones);
    }
    (results, ttl)
}

/// A zone none of whose records has the full name `domain` contributes no match.
proof fn lemma_no_owner_no_match(zone: Seq<char>, records: Seq<Record>, domain: Seq<char>, kind: Type)
    requires
        forall|k: int| 0 <= k < records.len() ==> absolute_name(zone, #[trigger] records[k].name@) != domain,
    ensures
        zone_matches(zone, records, domain, kind) == Seq::<RecordView>::empty(),
    decreases records.len(),
{
    if records.len() > 0 {
        let init = records.drop_last();
        assert forall|k: int| 0 <= k < init.len() implies absolute_name(zone, #[trigger] init[k].name@) != domain by {
            assert(init[k] == records[k]);
        }
        lemma_no_owner_no_match(zone, init, domain, kind);
    }
}

} // verus!
