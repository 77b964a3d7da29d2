use vstd::prelude::*;
use vstd::utf8::*;

use crate::error::ParseError;
use crate::name::{
    encode_name, join_labels, lemma_name_round_trip, lemma_parse_labels_len,
    lemma_parse_labels_wire, parse_dns_name, parse_labels, plain_labels, serialize_dns_name,
    wire_labels,
};
use crate::protocol_class::{class_of_code, code_of_class, lemma_class_code, Class};
use crate::record_type::{code_of_type, lemma_type_code, type_of_code, Type};
use crate::wire::{
    be16, be16_bytes, be32, be32_bytes, lemma_be16_of_bytes, lemma_be32_of_bytes, put_slice,
    put_u16, put_u32, skip_bytes, take_bytes, take_u16, take_u32,
};

verus! {

/// The data of a record, tagged by the kind of record it belongs to.
#[derive(Debug, PartialEq)]
pub enum RData {
    /// An IPv4 address, as its four octets.
    A([u8; 4]),
    /// An IPv6 address, as its sixteen octets.
    AAAA([u8; 16]),
    NS(String),
    CNAME(String),
    /// The data of any other kind, uninterpreted.
    Other(Vec<u8>),
}

/// What record data holds: address octets, a name as its UTF-8 text, or opaque bytes.
pub enum RDataView {
    A(Seq<u8>),
    AAAA(Seq<u8>),
    NS(Seq<u8>),
    CNAME(Seq<u8>),
    Other(Seq<u8>),
}

impl View for RData {
    type V = RDataView;

    open spec fn view(&self) -> RDataView {
        match self {
            RData::A(ip) => RDataView::A(ip@),
            RData::AAAA(ip) => RDataView::AAAA(ip@),
            RData::NS(name) => RDataView::NS(encode_utf8(name@)),
            RData::CNAME(name) => RDataView::CNAME(encode_utf8(name@)),
            RData::Other(data) => RDataView::Other(data@),
        }
    }
}

impl Clone for RData {
    fn clone(&self) -> (r: RData)
        ensures
            r@ == self@,
    {
        match self {
            RData::A(ip) => RData::A(*ip),
            RData::AAAA(ip) => RData::AAAA(*ip),
            RData::NS(name) => RData::NS(name.clone()),
            RData::CNAME(name) => RData::CNAME(name.clone()),
            RData::Other(data) => {
                let mut copy: Vec<u8> = Vec::new();
                put_slice(&mut copy, data.as_slice());
                RData::Other(copy)
            },
        }
    }
}

/// The bytes that write record data: the octets of an address, the wire form of a name, or
/// the opaque bytes as they are.
pub open spec fn encode_rdata(d: RDataView) -> Seq<u8> {
    match d {
        RDataView::A(o) => o,
        RDataView::AAAA(o) => o,
        RDataView::NS(n) => encode_name(n),
        RDataView::CNAME(n) => encode_name(n),
        RDataView::Other(o) => o,
    }
}

impl RData {
    pub fn serialize(&self) -> (r: Vec<u8>)
        ensures
            r@ == encode_rdata(self@),
    {
        match self {
            RData::A(ip) => {
                let mut out: Vec<u8> = Vec::new();
                put_slice(&mut out, ip.as_slice());
                out
            },
            RData::AAAA(ip) => {
                let mut out: Vec<u8> = Vec::new();
                put_slice(&mut out, ip.as_slice());
                out
            },
            RData::NS(name) => serialize_dns_name(name.as_str()),
            RData::CNAME(name) => serialize_dns_name(name.as_str()),
            RData::Other(data) => {
                let mut out: Vec<u8> = Vec::new();
                put_slice(&mut out, data.as_slice());
                out
            },
        }
    }
}

/// One entry of a message's answer section.
#[derive(Debug, PartialEq)]
pub struct DnsAnswer {
    pub name: String,
    pub rtype: Type,
    pub rclass: Class,
    pub ttl: u32,
    pub rdata: RData,
}

impl Clone for DnsAnswer {
    fn clone(&self) -> (r: DnsAnswer)
        ensures
            r.name == self.name,
            r.rtype == self.rtype,
            r.rclass == self.rclass,
            r.ttl == self.ttl,
            r.rdata@ == self.rdata@,
    {
        DnsAnswer {
            name: self.name.clone(),
            rtype: self.rtype,
            rclass: self.rclass,
            ttl: self.ttl,
            rdata: self.rdata.clone(),
        }
    }
}

/// What the wire form of record data decodes to, before its kind gives it a meaning.
pub enum RDataWire {
    Octets(Seq<u8>),
    Name(Seq<Seq<u8>>),
}

/// What the wire form of an answer holds.
pub struct AnswerWire {
    pub labels: Seq<Seq<u8>>,
    pub rtype: u16,
    pub rclass: u16,
    pub ttl: u32,
    pub rdlength: u16,
    pub rdata: RDataWire,
}

/// Decodes the record data of kind `t`, declared as `rdlength` bytes long, at the head of `b`,
/// with the number of bytes it covers. The declared length must fit in `b`; an address must
/// be declared exactly 4 (A) or 16 (AAAA) bytes long; a name (NS, CNAME) is read as far as its
/// own wire form goes, whatever the declared length; other data is the declared bytes.
pub open spec fn parse_rdata_spec(t: Type, rdlength: u16, b: Seq<u8>) -> Option<(RDataWire, int)> {
    if b.len() < rdlength {
        None
    } else {
        match t {
            Type::A => if rdlength != 4 {
                None
            } else {
                Some((RDataWire::Octets(b.take(4)), 4))
            },
            Type::AAAA => if rdlength != 16 {
                None
            } else {
                Some((RDataWire::Octets(b.take(16)), 16))
            },
            Type::NS => match parse_labels(b) {
                Some((ls, n)) => Some((RDataWire::Name(ls), n)),
                None => None,
            },
            Type::CNAME => match parse_labels(b) {
                Some((ls, n)) => Some((RDataWire::Name(ls), n)),
                None => None,
            },
            Type::Other(_) => Some((RDataWire::Octets(b.take(rdlength as int)), rdlength as int)),
        }
    }
}

/// Decodes the answer at the head of `b`: a name, type, class, TTL, declared data length and
/// the data, with the number of bytes they cover.
pub open spec fn parse_answer_wire(b: Seq<u8>) -> Option<(AnswerWire, int)> {
    match parse_labels(b) {
        Some((ls, n)) => if b.len() < n + 10 {
            None
        } else {
            let rtype = be16(b[n], b[n + 1]);
            let rdlength = be16(b[n + 8], b[n + 9]);
            match parse_rdata_spec(type_of_code(rtype), rdlength, b.skip(n + 10)) {
                Some((d, k)) => Some(
                    (
                        AnswerWire {
                            labels: ls,
                            rtype,
                            rclass: be16(b[n + 2], b[n + 3]),
                            ttl: be32(b[n + 4], b[n + 5], b[n + 6], b[n + 7]),
                            rdlength,
                            rdata: d,
                        },
                        n + 10 + k,
                    ),
                ),
                None => None,
            }
        },
        None => None,
    }
}

/// The record data of kind `t` that the decoded form `d` stands for.
pub open spec fn rdata_of_wire(t: Type, d: RDataWire) -> RDataView {
    match d {
        RDataWire::Octets(o) => match t {
            Type::A => RDataView::A(o),
            Type::AAAA => RDataView::AAAA(o),
            _ => RDataView::Other(o),
        },
        RDataWire::Name(ls) => match t {
            Type::NS => RDataView::NS(join_labels(ls)),
            _ => RDataView::CNAME(join_labels(ls)),
        },
    }
}

/// `a` is the answer that the wire form `w` decodes to.
pub open spec fn answer_holds(a: DnsAnswer, w: AnswerWire) -> bool {
    &&& encode_utf8(a.name@) == join_labels(w.labels)
    &&& a.rtype == type_of_code(w.rtype)
    &&& a.rclass == class_of_code(w.rclass)
    &&& a.ttl == w.ttl
    &&& a.rdata@ == rdata_of_wire(a.rtype, w.rdata)
}

/// The bytes that write an answer; the data length field keeps the low 16 bits of the length.
pub open spec fn encode_answer(a: DnsAnswer) -> Seq<u8> {
    let rd = encode_rdata(a.rdata@);
    encode_name(encode_utf8(a.name@)) + be16_bytes(code_of_type(a.rtype)) + be16_bytes(
        code_of_class(a.rclass),
    ) + be32_bytes(a.ttl) + be16_bytes((rd.len() % 0x1_0000) as u16) + rd
}

/// A decoded answer covers no more than the bytes given.
pub proof fn lemma_answer_wire_len(b: Seq<u8>)
    ensures
        parse_answer_wire(b) matches Some((w, n)) ==> 0 <= n <= b.len(),
{
    lemma_parse_labels_len(b);
    if let Some((ls, n)) = parse_labels(b) {
        if b.len() >= n + 10 {
            lemma_parse_labels_len(b.skip(n + 10));
        }
    }
}

/// Every decoded answer of kind A declared exactly 4 bytes of data, and every one of kind
/// AAAA exactly 16: any other declared length makes the answer fail to decode.
pub proof fn lemma_address_length_checked(b: Seq<u8>)
    ensures
        parse_answer_wire(b) matches Some((w, n)) ==> (w.rtype == 1 ==> w.rdlength == 4) && (
        w.rtype == 28 ==> w.rdlength == 16),
{
}

/// Record data whose decoded form is written back as the same bytes: a name's labels hold no
/// dot and its wire form fills the declared length exactly.
pub open spec fn rdata_wire_kept(a: AnswerWire) -> bool {
    match a.rdata {
        RDataWire::Name(ls) => plain_labels(ls) && a.rdlength == wire_labels(ls).len() + 1,
        RDataWire::Octets(_) => true,
    }
}

/// A decoded answer whose names' labels hold no dot, and whose name data fills its declared
/// length, is written back as the bytes it was decoded from.
pub proof fn lemma_answer_round_trip(b: Seq<u8>, a: DnsAnswer)
    requires
        parse_answer_wire(b) matches Some((w, n)) && answer_holds(a, w) && plain_labels(w.labels)
            && rdata_wire_kept(w),
    ensures
        encode_answer(a) == b.take(parse_answer_wire(b).unwrap().1),
{
    let (w, n) = parse_answer_wire(b).unwrap();
    let nl = parse_labels(b).unwrap().1;
    lemma_name_round_trip(b);
    lemma_parse_labels_len(b);
    lemma_type_code(w.rtype);
    lemma_class_code(w.rclass);
    lemma_be16_of_bytes(b[nl], b[nl + 1]);
    lemma_be16_of_bytes(b[nl + 2], b[nl + 3]);
    lemma_be32_of_bytes(b[nl + 4], b[nl + 5], b[nl + 6], b[nl + 7]);
    lemma_be16_of_bytes(b[nl + 8], b[nl + 9]);
    let r = b.skip(nl + 10);
    let k = n - nl - 10;
    let rd = encode_rdata(a.rdata@);
    match w.rdata {
        RDataWire::Name(ls) => {
            lemma_name_round_trip(r);
            lemma_parse_labels_wire(r);
            assert(rd == r.take(k));
        },
        RDataWire::Octets(o) => {
            assert(rd == r.take(k));
        },
    }
    assert(rd.len() == w.rdlength);
    assert((rd.len() % 0x1_0000) as u16 == w.rdlength);
    assert(encode_answer(a) =~= b.take(n));
}

/// Reads record data of kind `rtype`, declared `rdlength` bytes long, off the front of `buf`.
fn parse_rdata(rtype: Type, rdlength: u16, buf: &mut &[u8]) -> (r: Result<RData, ParseError>)
    ensures
        r is Ok <==> parse_rdata_spec(rtype, rdlength, old(buf)@) is Some,
        r matches Ok(d) ==> parse_rdata_spec(rtype, rdlength, old(buf)@) matches Some((w, k))
            && d@ == rdata_of_wire(rtype, w) && final(buf)@ == old(buf)@.skip(k),
{
    let ghost start = buf@;
    if buf.len() < rdlength as usize {
        return Err(ParseError::describe("not enough bytes for the record data"));
    }
    match rtype {
        Type::A => {
            if rdlength != 4 {
                return Err(ParseError::describe("an A record's data must be 4 bytes long"));
            }
            let ip = [buf[0], buf[1], buf[2], buf[3]];
            skip_bytes(buf, 4);
            assert(ip@ =~= start.take(4));
            Ok(RData::A(ip))
        },
        Type::AAAA => {
            if rdlength != 16 {
                return Err(ParseError::describe("an AAAA record's data must be 16 bytes long"));
            }
            let ip = [
                buf[0],
                buf[1],
                buf[2],
                buf[3],
                buf[4],
                buf[5],
                buf[6],
                buf[7],
                buf[8],
                buf[9],
                buf[10],
                buf[11],
                buf[12],
                buf[13],
                buf[14],
                buf[15],
            ];
            skip_bytes(buf, 16);
            assert(ip@ =~= start.take(16));
            Ok(RData::AAAA(ip))
        },
        Type::NS => match parse_dns_name(buf) {
            Ok(name) => Ok(RData::NS(name)),
            Err(e) => Err(e),
        },
        Type::CNAME => match parse_dns_name(buf) {
            Ok(name) => Ok(RData::CNAME(name)),
            Err(e) => Err(e),
        },
        Type::Other(_) => {
            let data = take_bytes(buf, rdlength as usize);
            Ok(RData::Other(data))
        },
    }
}

impl DnsAnswer {
    pub fn serialize(&self) -> (r: Vec<u8>)
        ensures
            r@ == encode_answer(*self),
    {
        let rdata_bytes = self.rdata.serialize();
        let name = serialize_dns_name(self.name.as_str());
        let mut buf: Vec<u8> = Vec::new();
        put_slice(&mut buf, name.as_slice());
        put_u16(&mut buf, self.rtype.to_u16());
        put_u16(&mut buf, self.rclass.to_u16());
        put_u32(&mut buf, self.ttl);
        put_u16(&mut buf, (rdata_bytes.len() % 0x1_0000) as u16);
        put_slice(&mut buf, rdata_bytes.as_slice());
        buf
    }
}

/// Reads one answer off the front of `buf`.
pub fn parse_dns_answer(buf: &mut &[u8]) -> (r: Result<DnsAnswer, ParseError>)
    ensures
        r is Ok <==> parse_answer_wire(old(buf)@) is Some,
        r matches Ok(a) ==> parse_answer_wire(old(buf)@) matches Some((w, n)) && answer_holds(
            a,
            w,
        ) && final(buf)@ == old(buf)@.skip(n),
{
    let ghost start = buf@;
    let name = match parse_dns_name(buf) {
        Ok(name) => name,
        Err(e) => {
            return Err(e);
        },
    };
    let ghost n = parse_labels(start).unwrap().1;
    proof {
        lemma_parse_labels_len(start);
        assert(buf@ == start.skip(n));
    }
    if buf.len() < 10 {
        return Err(ParseError::describe("not enough bytes for an answer's fixed fields"));
    }
    let rtype = Type::parse(take_u16(buf));
    let rclass = Class::parse(take_u16(buf));
    let ttl = take_u32(buf);
    let rdlength = take_u16(buf);
    proof {
        assert(buf@ =~= start.skip(n + 10));
    }
    let rdata = match parse_rdata(rtype, rdlength, buf) {
        Ok(d) => d,
        Err(e) => {
            return Err(e);
        },
    };
    proof {
        let rest = start.skip(n + 10);
        lemma_parse_labels_len(rest);
        let k = parse_rdata_spec(rtype, rdlength, rest).unwrap().1;
        assert(buf@ =~= start.skip(n + 10 + k));
        assert(ttl == be32(start[n + 4], start[n + 5], start[n + 6], start[n + 7]));
    }
    Ok(DnsAnswer { name, rtype, rclass, ttl, rdata })
}

} // verus!
