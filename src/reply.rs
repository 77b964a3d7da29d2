use vstd::prelude::*;

use crate::answer::DnsAnswer;
use crate::header::{DnsHeader, RCode};
use crate::packet::DnsPacket;
use crate::protocol_class::Class;
use crate::question::DnsQuestion;
use crate::zone_config::{find_record, lookup_records, lookup_ttl, RecordView, ZoneConfig};

verus! {

/// The result code of the reply to `query`: NotImp unless there is exactly one question,
/// then Refused unless its class is IN, then NXDomain when no record answers it, NoError
/// otherwise.
pub open spec fn reply_rcode(config: ZoneConfig, query: DnsPacket) -> RCode {
    if query.questions@.len() != 1 {
        RCode::NotImp
    } else if query.questions@[0].qclass != Class::IN {
        RCode::Refused
    } else if lookup_records(
        config.zones@,
        query.questions@[0].qname@,
        query.questions@[0].qtype,
    ).len() == 0 {
        RCode::NXDomain
    } else {
        RCode::NoError
    }
}

/// A section length as a header count, held at the largest count when it does not fit.
pub open spec fn saturating_count(n: nat) -> u16 {
    if n > 0xffff {
        0xffff
    } else {
        n as u16
    }
}

/// The header of a reply to a query with header `q`: same identifier, operation and
/// recursion-desired flag, the response bit set, every other flag clear, the given result
/// code and section lengths, no authority or additional records.
pub open spec fn reply_header(q: DnsHeader, rcode: RCode, questions: nat, answers: nat) -> DnsHeader {
    DnsHeader {
        transaction_id: q.transaction_id,
        response: true,
        opcode: q.opcode,
        authoritative_answer: false,
        truncation: false,
        recursion_desired: q.recursion_desired,
        recursion_available: false,
        _reserved: false,
        authenticated_data: false,
        checking_disabled: false,
        rcode,
        qd_count: saturating_count(questions),
        an_count: saturating_count(answers),
        ns_count: 0,
        ar_count: 0,
    }
}

/// `answers` holds one answer per record of `records`, in order, each with the question's
/// name, type and class, the time-to-live `ttl` and the record's data.
pub open spec fn answers_for(
    answers: Seq<DnsAnswer>,
    q: DnsQuestion,
    ttl: u32,
    records: Seq<RecordView>,
) -> bool {
    &&& answers.len() == records.len()
    &&& forall|i: int|
        0 <= i < answers.len() ==> {
            &&& (#[trigger] answers[i]).name@ == q.qname@
            &&& answers[i].rtype == q.qtype
            &&& answers[i].rclass == q.qclass
            &&& answers[i].ttl == ttl
            &&& answers[i].rdata@ == records[i].rdata
        }
}

/// `reply` is the reply that the store `config` gives to `query`.
pub open spec fn is_reply(config: ZoneConfig, query: DnsPacket, reply: DnsPacket) -> bool {
    let rcode = reply_rcode(config, query);
    &&& reply.header == reply_header(
        query.header,
        rcode,
        query.questions@.len(),
        reply.answers@.len(),
    )
    &&& reply.questions@ == query.questions@
    &&& reply.unparsed@.len() == 0
    &&& if rcode == RCode::NoError {
        let q = query.questions@[0];
        answers_for(
            reply.answers@,
            q,
            lookup_ttl(config.zones@, q.qname@),
            lookup_records(config.zones@, q.qname@, q.qtype),
        )
    } else {
        reply.answers@.len() == 0
    }
}

/// Every reply has its response bit set, so a reply handed back in gets no reply of its own.
pub proof fn lemma_reply_is_response(config: ZoneConfig, query: DnsPacket, reply: DnsPacket)
    requires
        is_reply(config, query, reply),
    ensures
        reply.header.response,
{
}

fn count_of(n: usize) -> (r: u16)
    ensures
        r == saturating_count(n as nat),
{
    if n > 0xffff {
        0xffff
    } else {
        n as u16
    }
}

/// Builds the reply to `query` from the records of `config`; a message that is itself a
/// response gets none.
pub fn construct_reply(config: &ZoneConfig, query: &DnsPacket) -> (r: Option<DnsPacket>)
    ensures
        query.header.response ==> r is None,
        !query.header.response ==> (r matches Some(reply) && is_reply(*config, *query, reply)),
{
    if query.header.response {
        return None;
    }
    let mut answers: Vec<DnsAnswer> = Vec::new();
    let rcode = if query.questions.len() == 1 {
        let q = &query.questions[0];
        if q.qclass == Class::IN {
            let (records, ttl) = find_record(config, q.qname.as_str(), q.qtype);
            let ghost expected = lookup_records(config.zones@, q.qname@, q.qtype);
            proof {
                assert(records@.map_values(|x: crate::zone_config::Record| x@).len() == records@.len());
            }
            if records.len() == 0 {
                RCode::NXDomain
            } else {
                let mut i: usize = 0;
                while i < records.len()
                    invariant
                        i <= records@.len(),
                        records@.map_values(|x: crate::zone_config::Record| x@) == expected,
                        answers@.len() == i,
                        forall|j: int|
                            0 <= j < i ==> {
                                &&& (#[trigger] answers@[j]).name@ == q.qname@
                                &&& answers@[j].rtype == q.qtype
                                &&& answers@[j].rclass == q.qclass
                                &&& answers@[j].ttl == ttl
                                &&& answers@[j].rdata@ == expected[j].rdata
                            },
                    decreases records@.len() - i,
                {
                    assert(expected[i as int] == records@[i as int]@);
                    answers.push(
                        DnsAnswer {
                            name: q.qname.clone(),
                            rtype: q.qtype,
                            rclass: q.qclass,
                            ttl,
                            rdata: records[i].rdata.clone(),
                        },
                    );
                    i = i + 1;
                }
                RCode::NoError
            }
        } else {
            RCode::Refused
        }
    } else {
        RCode::NotImp
    };
    let questions = query.questions.clone();
    proof {
        assert(questions@ =~= query.questions@);
    }
    let header = DnsHeader {
        transaction_id: query.header.transaction_id,
        response: true,
        opcode: query.header.opcode,
        authoritative_answer: false,
        truncation: false,
        recursion_desired: query.header.recursion_desired,
        recursion_available: false,
        _reserved: false,
        authenticated_data: false,
        checking_disabled: false,
        rcode,
        qd_count: count_of(questions.len()),
        an_count: count_of(answers.len()),
        ns_count: 0,
        ar_count: 0,
    };
    Some(DnsPacket { header, questions, answers, unparsed: Vec::new() })
}

} // verus!
