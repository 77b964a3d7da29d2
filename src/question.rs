use vstd::prelude::*;
use vstd::utf8::*;

use crate::error::ParseError;
use crate::name::{
    encode_name, join_labels, lemma_name_round_trip, lemma_parse_labels_len, parse_dns_name,
    parse_labels, plain_labels, serialize_dns_name,
};
use crate::protocol_class::{class_of_code, code_of_class, lemma_class_code, Class};
use crate::record_type::{code_of_type, lemma_type_code, type_of_code, Type};
use crate::wire::{be16, be16_bytes, lemma_be16_of_bytes, put_slice, put_u16, take_u16};

verus! {

/// One entry of a message's question section.
#[derive(Debug, PartialEq)]
pub struct DnsQuestion {
    pub qname: String,
    pub qtype: Type,
    pub qclass: Class,
}

impl Clone for DnsQuestion {
    fn clone(&self) -> (r: DnsQuestion)
        ensures
            r == *self,
    {
        DnsQuestion { qname: self.qname.clone(), qtype: self.qtype, qclass: self.qclass }
    }
}

/// What the wire form of a question holds: the labels of its name and its two codes.
pub struct QuestionWire {
    pub labels: Seq<Seq<u8>>,
    pub qtype: u16,
    pub qclass: u16,
}

/// Decodes the question at the head of `b`: a name, a 16-bit type code and a 16-bit class
/// code, with the number of bytes they cover.
pub open spec fn parse_question_wire(b: Seq<u8>) -> Option<(QuestionWire, int)> {
    match parse_labels(b) {
        Some((ls, n)) => if b.len() < n + 4 {
            None
        } else {
            Some(
                (
                    QuestionWire {
                        labels: ls,
                        qtype: be16(b[n], b[n + 1]),
                        qclass: be16(b[n + 2], b[n + 3]),
                    },
                    n + 4,
                ),
            )
        },
        None => None,
    }
}

/// `q` is the question that the wire form `w` decodes to.
pub open spec fn question_holds(q: DnsQuestion, w: QuestionWire) -> bool {
    &&& encode_utf8(q.qname@) == join_labels(w.labels)
    &&& q.qtype == type_of_code(w.qtype)
    &&& q.qclass == class_of_code(w.qclass)
}

/// The bytes that write a question.
pub open spec fn encode_question(q: DnsQuestion) -> Seq<u8> {
    encode_name(encode_utf8(q.qname@)) + be16_bytes(code_of_type(q.qtype)) + be16_bytes(
        code_of_class(q.qclass),
    )
}

/// A decoded question covers no more than the bytes given.
pub proof fn lemma_question_wire_len(b: Seq<u8>)
    ensures
        parse_question_wire(b) matches Some((w, n)) ==> 0 <= n <= b.len(),
{
    lemma_parse_labels_len(b);
}

/// A decoded question whose name's labels hold no dot is written back as the bytes it was
/// decoded from.
pub proof fn lemma_question_round_trip(b: Seq<u8>, q: DnsQuestion)
    requires
        parse_question_wire(b) matches Some((w, n)) && question_holds(q, w) && plain_labels(
            w.labels,
        ),
    ensures
        encode_question(q) == b.take(parse_question_wire(b).unwrap().1),
{
    let (w, n) = parse_question_wire(b).unwrap();
    let nl = parse_labels(b).unwrap().1;
    lemma_name_round_trip(b);
    lemma_parse_labels_len(b);
    lemma_type_code(w.qtype);
    lemma_class_code(w.qclass);
    lemma_be16_of_bytes(b[nl], b[nl + 1]);
    lemma_be16_of_bytes(b[nl + 2], b[nl + 3]);
    assert(encode_question(q) =~= b.take(n));
}

impl DnsQuestion {
    pub fn serialize(&self) -> (r: Vec<u8>)
        ensures
            r@ == encode_question(*self),
    {
        let name = serialize_dns_name(self.qname.as_str());
        let mut buf: Vec<u8> = Vec::new();
        put_slice(&mut buf, name.as_slice());
        put_u16(&mut buf, self.qtype.to_u16());
        put_u16(&mut buf, self.qclass.to_u16());
        buf
    }
}

/// Reads one question off the front of `buf`.
pub fn parse_dns_question(buf: &mut &[u8]) -> (r: Result<DnsQuestion, ParseError>)
    ensures
        r is Ok <==> parse_question_wire(old(buf)@) is Some,
        r matches Ok(q) ==> parse_question_wire(old(buf)@) matches Some((w, n)) && question_holds(
            q,
            w,
        ) && final(buf)@ == old(buf)@.skip(n),
{
    let ghost start = buf@;
    let qname = match parse_dns_name(buf) {
        Ok(name) => name,
        Err(e) => {
            return Err(e);
        },
    };
    let ghost n = parse_labels(start).unwrap().1;
    proof {
        lemma_parse_labels_len(start);
        assert(buf@ == start.skip(n));
    }
    if buf.len() < 4 {
        return Err(ParseError::describe("not enough bytes for a question's type and class"));
    }
    let qtype = Type::parse(take_u16(buf));
    let qclass = Class::parse(take_u16(buf));
    proof {
        assert(buf@ =~= start.skip(n + 4));
    }
    Ok(DnsQuestion { qname, qtype, qclass })
}

} // verus!
