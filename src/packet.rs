use vstd::prelude::*;

use crate::answer::{
    answer_holds, encode_answer, lemma_answer_round_trip, lemma_answer_wire_len,
    parse_answer_wire, parse_dns_answer, rdata_wire_kept, AnswerWire, DnsAnswer,
};
use crate::error::ParseError;
use crate::header::{
    encode_header, header_codes_kept, lemma_header_round_trip, parse_dns_header,
    parse_header_spec, DnsHeader,
};
use crate::name::plain_labels;
use crate::question::{
    encode_question, lemma_question_round_trip, lemma_question_wire_len, parse_dns_question,
    parse_question_wire, question_holds, DnsQuestion, QuestionWire,
};
use crate::wire::{continue_parse, put_slice};

verus! {

/// A whole message: the header, the question and answer sections, and the bytes after them
/// (authority and additional sections), kept as they came.
#[derive(Debug, PartialEq)]
pub struct DnsPacket {
    pub header: DnsHeader,
    pub questions: Vec<DnsQuestion>,
    pub answers: Vec<DnsAnswer>,
    pub unparsed: Vec<u8>,
}

/// What the wire form of a message holds.
pub struct MessageWire {
    pub header: DnsHeader,
    pub questions: Seq<QuestionWire>,
    pub answers: Seq<AnswerWire>,
    pub tail: Seq<u8>,
}

/// Decodes `count` questions in a row at the head of `b`, with the bytes they cover.
pub open spec fn parse_questions(b: Seq<u8>, count: nat) -> Option<(Seq<QuestionWire>, int)>
    decreases count,
{
    if count == 0 {
        Some((Seq::empty(), 0))
    } else {
        match parse_question_wire(b) {
            Some((q, n)) => continue_parse(
                seq![q],
                n,
                parse_questions(b.skip(n), (count - 1) as nat),
            ),
            None => None,
        }
    }
}

/// Decodes `count` answers in a row at the head of `b`, with the bytes they cover.
pub open spec fn parse_answers(b: Seq<u8>, count: nat) -> Option<(Seq<AnswerWire>, int)>
    decreases count,
{
    if count == 0 {
        Some((Seq::empty(), 0))
    } else {
        match parse_answer_wire(b) {
            Some((a, n)) => continue_parse(seq![a], n, parse_answers(b.skip(n), (count - 1) as nat)),
            None => None,
        }
    }
}

/// Decodes a message: the header, then as many questions and answers as its counts say, then
/// every byte left over as the tail.
pub open spec fn parse_message_wire(b: Seq<u8>) -> Option<MessageWire> {
    match parse_header_spec(b) {
        Some(h) => match parse_questions(b.skip(12), h.qd_count as nat) {
            Some((qs, n)) => match parse_answers(b.skip(12 + n), h.an_count as nat) {
                Some((ans, m)) => Some(
                    MessageWire { header: h, questions: qs, answers: ans, tail: b.skip(12 + n + m) },
                ),
                None => None,
            },
            None => None,
        },
        None => None,
    }
}

/// `p` is the message that the wire form `w` decodes to.
pub open spec fn packet_holds(p: DnsPacket, w: MessageWire) -> bool {
    &&& p.header == w.header
    &&& p.questions@.len() == w.questions.len()
    &&& forall|i: int|
        0 <= i < w.questions.len() ==> #[trigger] question_holds(p.questions@[i], w.questions[i])
    &&& p.answers@.len() == w.answers.len()
    &&& forall|i: int|
        0 <= i < w.answers.len() ==> #[trigger] answer_holds(p.answers@[i], w.answers[i])
    &&& p.unparsed@ == w.tail
}

/// The questions written one after another.
pub open spec fn encode_questions(qs: Seq<DnsQuestion>) -> Seq<u8>
    decreases qs.len(),
{
    if qs.len() == 0 {
        Seq::empty()
    } else {
        encode_questions(qs.drop_last()) + encode_question(qs.last())
    }
}

/// The answers written one after another.
pub open spec fn encode_answers(ans: Seq<DnsAnswer>) -> Seq<u8>
    decreases ans.len(),
{
    if ans.len() == 0 {
        Seq::empty()
    } else {
        encode_answers(ans.drop_last()) + encode_answer(ans.last())
    }
}

/// The bytes that write a message: header, questions, answers, then the kept tail.
pub open spec fn encode_packet(p: DnsPacket) -> Seq<u8> {
    encode_header(p.header) + encode_questions(p.questions@) + encode_answers(p.answers@)
        + p.unparsed@
}

/// The decoded message from `b` is one that writing back reproduces: its operation and result
/// codes have variants of their own, no label of a name holds a dot, no name is the root, and
/// the name in NS or CNAME data fills the declared data length exactly.
pub open spec fn message_kept(b: Seq<u8>, w: MessageWire) -> bool {
    &&& header_codes_kept(b)
    &&& forall|i: int| 0 <= i < w.questions.len() ==> plain_labels(#[trigger] w.questions[i].labels)
    &&& forall|i: int|
        0 <= i < w.answers.len() ==> plain_labels((#[trigger] w.answers[i]).labels)
            && rdata_wire_kept(w.answers[i])
}

proof fn lemma_encode_questions_cons(q: DnsQuestion, qs: Seq<DnsQuestion>)
    ensures
        encode_questions(seq![q] + qs) == encode_question(q) + encode_questions(qs),
    decreases qs.len(),
{
    let all = seq![q] + qs;
    if qs.len() == 0 {
        assert(all =~= seq![q]);
        assert(all.drop_last() =~= Seq::<DnsQuestion>::empty());
        assert(all.last() == q);
        assert(encode_questions(Seq::<DnsQuestion>::empty()) =~= Seq::<u8>::empty());
        assert(encode_questions(qs) =~= Seq::<u8>::empty());
        assert(encode_questions(all) =~= encode_question(q) + encode_questions(qs));
    } else {
        assert(all.drop_last() =~= seq![q] + qs.drop_last());
        assert(all.last() == qs.last());
        lemma_encode_questions_cons(q, qs.drop_last());
        assert(encode_questions(all) =~= encode_question(q) + encode_questions(qs));
    }
}

proof fn lemma_encode_answers_cons(a: DnsAnswer, ans: Seq<DnsAnswer>)
    ensures
        encode_answers(seq![a] + ans) == encode_answer(a) + encode_answers(ans),
    decreases ans.len(),
{
    let all = seq![a] + ans;
    if ans.len() == 0 {
        assert(all =~= seq![a]);
        assert(all.drop_last() =~= Seq::<DnsAnswer>::empty());
        assert(all.last() == a);
        assert(encode_answers(Seq::<DnsAnswer>::empty()) =~= Seq::<u8>::empty());
        assert(encode_answers(ans) =~= Seq::<u8>::empty());
        assert(encode_answers(all) =~= encode_answer(a) + encode_answers(ans));
    } else {
        assert(all.drop_last() =~= seq![a] + ans.drop_last());
        assert(all.last() == ans.last());
        lemma_encode_answers_cons(a, ans.drop_last());
        assert(encode_answers(all) =~= encode_answer(a) + encode_answers(ans));
    }
}

proof fn lemma_questions_round_trip(b: Seq<u8>, count: nat, qs: Seq<DnsQuestion>)
    requires
        parse_questions(b, count) matches Some((ws, n)) && qs.len() == ws.len() && (forall|i: int|
            0 <= i < ws.len() ==> #[trigger] question_holds(qs[i], ws[i]) && plain_labels(
                ws[i].labels,
            )),
    ensures
        0 <= parse_questions(b, count).unwrap().1 <= b.len(),
        encode_questions(qs) == b.take(parse_questions(b, count).unwrap().1),
    decreases count,
{
    let (ws, n) = parse_questions(b, count).unwrap();
    if count == 0 {
        assert(encode_questions(qs) =~= b.take(0));
    } else {
        let (w0, n0) = parse_question_wire(b).unwrap();
        lemma_question_wire_len(b);
        let rest = b.skip(n0);
        let (ws1, m) = parse_questions(rest, (count - 1) as nat).unwrap();
        assert(ws == seq![w0] + ws1);
        assert(ws[0] == w0);
        let qs1 = qs.skip(1);
        assert forall|i: int| 0 <= i < ws1.len() implies #[trigger] question_holds(qs1[i], ws1[i])
            && plain_labels(ws1[i].labels) by {
            assert(qs1[i] == qs[i + 1]);
            assert(ws1[i] == ws[i + 1]);
            assert(question_holds(qs[i + 1], ws[i + 1]));
        }
        assert(question_holds(qs[0], ws[0]));
        lemma_questions_round_trip(rest, (count - 1) as nat, qs1);
        lemma_question_round_trip(b, qs[0]);
        assert(qs =~= seq![qs[0]] + qs1);
        lemma_encode_questions_cons(qs[0], qs1);
        assert(b.take(n0 + m) =~= b.take(n0) + rest.take(m));
    }
}

proof fn lemma_answers_round_trip(b: Seq<u8>, count: nat, ans: Seq<DnsAnswer>)
    requires
        parse_answers(b, count) matches Some((ws, n)) && ans.len() == ws.len() && (forall|i: int|
            0 <= i < ws.len() ==> #[trigger] answer_holds(ans[i], ws[i]) && plain_labels(
                ws[i].labels,
            ) && rdata_wire_kept(ws[i])),
    ensures
        0 <= parse_answers(b, count).unwrap().1 <= b.len(),
        encode_answers(ans) == b.take(parse_answers(b, count).unwrap().1),
    decreases count,
{
    let (ws, n) = parse_answers(b, count).unwrap();
    if count == 0 {
        assert(encode_answers(ans) =~= b.take(0));
    } else {
        let (w0, n0) = parse_answer_wire(b).unwrap();
        lemma_answer_wire_len(b);
        let rest = b.skip(n0);
        let (ws1, m) = parse_answers(rest, (count - 1) as nat).unwrap();
        assert(ws == seq![w0] + ws1);
        assert(ws[0] == w0);
        let ans1 = ans.skip(1);
        assert forall|i: int| 0 <= i < ws1.len() implies #[trigger] answer_holds(ans1[i], ws1[i])
            && plain_labels(ws1[i].labels) && rdata_wire_kept(ws1[i]) by {
            assert(ans1[i] == ans[i + 1]);
            assert(ws1[i] == ws[i + 1]);
            assert(answer_holds(ans[i + 1], ws[i + 1]));
        }
        assert(answer_holds(ans[0], ws[0]));
        lemma_answers_round_trip(rest, (count - 1) as nat, ans1);
        lemma_answer_round_trip(b, ans[0]);
        assert(ans =~= seq![ans[0]] + ans1);
        lemma_encode_answers_cons(ans[0], ans1);
        assert(b.take(n0 + m) =~= b.take(n0) + rest.take(m));
    }
}

/// Round trip: a message decoded from `b` is written back as exactly `b`, whenever writing
/// back can reproduce it (see `message_kept`): every byte after the decoded sections is kept
/// as it came.
pub proof fn lemma_round_trip(b: Seq<u8>, p: DnsPacket)
    requires
        parse_message_wire(b) matches Some(w) && packet_holds(p, w) && message_kept(b, w),
    ensures
        encode_packet(p) == b,
{
    let w = parse_message_wire(b).unwrap();
    let h = parse_header_spec(b).unwrap();
    lemma_header_round_trip(b);
    let b1 = b.skip(12);
    let (qws, n) = parse_questions(b1, h.qd_count as nat).unwrap();
    assert forall|i: int| 0 <= i < qws.len() implies #[trigger] question_holds(p.questions@[i], qws[i])
        && plain_labels(qws[i].labels) by {
        assert(question_holds(p.questions@[i], w.questions[i]));
        assert(plain_labels(w.questions[i].labels));
    }
    lemma_questions_round_trip(b1, h.qd_count as nat, p.questions@);
    let b2 = b.skip(12 + n);
    let (aws, m) = parse_answers(b2, h.an_count as nat).unwrap();
    assert forall|i: int| 0 <= i < aws.len() implies #[trigger] answer_holds(p.answers@[i], aws[i])
        && plain_labels(aws[i].labels) && rdata_wire_kept(aws[i]) by {
        assert(answer_holds(p.answers@[i], w.answers[i]));
        assert(plain_labels(w.answers[i].labels) && rdata_wire_kept(w.answers[i]));
    }
    lemma_answers_round_trip(b2, h.an_count as nat, p.answers@);
    assert(b1.take(n) =~= b.subrange(12, 12 + n));
    assert(b2.take(m) =~= b.subrange(12 + n, 12 + n + m));
    assert(encode_packet(p) =~= b);
}

impl DnsPacket {
    pub fn serialize(&self) -> (r: Vec<u8>)
        ensures
            r@ == encode_packet(*self),
    {
        let mut buf = self.header.serialize();
        let mut i: usize = 0;
        while i < self.questions.len()
            invariant
                i <= self.questions@.len(),
                buf@ == encode_header(self.header) + encode_questions(
                    self.questions@.take(i as int),
                ),
            decreases self.questions@.len() - i,
        {
            let bytes = self.questions[i].serialize();
            put_slice(&mut buf, bytes.as_slice());
            proof {
                assert(self.questions@.take(i + 1).drop_last() =~= self.questions@.take(i as int));
            }
            i = i + 1;
        }
        let mut j: usize = 0;
        while j < self.answers.len()
            invariant
                i == self.questions@.len(),
                j <= self.answers@.len(),
                buf@ == encode_header(self.header) + encode_questions(
                    self.questions@.take(i as int),
                ) + encode_answers(self.answers@.take(j as int)),
            decreases self.answers@.len() - j,
        {
            let bytes = self.answers[j].serialize();
            put_slice(&mut buf, bytes.as_slice());
            proof {
                assert(self.answers@.take(j + 1).drop_last() =~= self.answers@.take(j as int));
            }
            j = j + 1;
        }
        put_slice(&mut buf, self.unparsed.as_slice());
        proof {
            assert(self.questions@.take(i as int) =~= self.questions@);
            assert(self.answers@.take(j as int) =~= self.answers@);
        }
        buf
    }
}

/// Decodes a whole message.
pub fn parse_dns_query(b: &[u8]) -> (r: Result<DnsPacket, ParseError>)
    ensures
        r is Ok <==> parse_message_wire(b@) is Some,
        r matches Ok(p) ==> parse_message_wire(b@) matches Some(w) && packet_holds(p, w),
        r matches Ok(p) ==> p.questions@.len() == p.header.qd_count && p.answers@.len()
            == p.header.an_count,
{
    let mut buf: &[u8] = b;
    let header = match parse_dns_header(&mut buf) {
        Ok(h) => h,
        Err(e) => {
            return Err(e);
        },
    };
    let ghost after_header = buf@;
    let ghost qd = header.qd_count as nat;
    let mut questions: Vec<DnsQuestion> = Vec::new();
    let ghost mut qws: Seq<QuestionWire> = Seq::empty();
    let ghost mut used: int = 0;
    let mut i: u16 = 0;
    proof {
        assert(after_header.skip(0) =~= after_header);
        assert(Seq::<QuestionWire>::empty() + qws =~= qws);
    }
    while i < header.qd_count
        invariant
            parse_header_spec(b@) == Some(header),
            after_header == b@.skip(12),
            b@.len() >= 12,
            qd == header.qd_count,
            0 <= used <= after_header.len(),
            buf@ == after_header.skip(used),
            i <= header.qd_count,
            questions@.len() == i,
            qws.len() == i,
            forall|j: int| 0 <= j < i ==> #[trigger] question_holds(questions@[j], qws[j]),
            parse_questions(after_header, qd) == continue_parse(
                qws,
                used,
                parse_questions(buf@, (qd - i) as nat),
            ),
        decreases header.qd_count - i,
    {
        let ghost here = buf@;
        let q = match parse_dns_question(&mut buf) {
            Ok(q) => q,
            Err(e) => {
                assert(parse_questions(here, (qd - i) as nat) is None);
                return Err(e);
            },
        };
        proof {
            lemma_question_wire_len(here);
            let (w, n) = parse_question_wire(here).unwrap();
            assert(buf@ =~= after_header.skip(used + n));
            let old_qws = qws;
            qws = qws.push(w);
            used = used + n;
            match parse_questions(buf@, (qd - i - 1) as nat) {
                Some((rest, m)) => {
                    assert(old_qws + (seq![w] + rest) =~= qws + rest);
                },
                None => {},
            }
        }
        questions.push(q);
        i = i + 1;
    }
    proof {
        assert(parse_questions(buf@, (qd - i) as nat) == Some((Seq::<QuestionWire>::empty(), 0int)));
        assert(qws + Seq::<QuestionWire>::empty() =~= qws);
        assert(buf@ =~= b@.skip(12 + used));
    }
    let ghost after_questions = buf@;
    let ghost an = header.an_count as nat;
    let mut answers: Vec<DnsAnswer> = Vec::new();
    let ghost mut aws: Seq<AnswerWire> = Seq::empty();
    let ghost mut used2: int = 0;
    let mut k: u16 = 0;
    proof {
        assert(after_questions.skip(0) =~= after_questions);
        assert(Seq::<AnswerWire>::empty() + aws =~= aws);
    }
    while k < header.an_count
        invariant
            parse_header_spec(b@) == Some(header),
            after_header == b@.skip(12),
            b@.len() >= 12,
            parse_questions(after_header, header.qd_count as nat) == Some((qws, used)),
            after_questions == b@.skip(12 + used),
            0 <= used <= after_header.len(),
            an == header.an_count,
            0 <= used2 <= after_questions.len(),
            buf@ == after_questions.skip(used2),
            k <= header.an_count,
            answers@.len() == k,
            aws.len() == k,
            forall|j: int| 0 <= j < k ==> #[trigger] answer_holds(answers@[j], aws[j]),
            parse_answers(after_questions, an) == continue_parse(
                aws,
                used2,
                parse_answers(buf@, (an - k) as nat),
            ),
        decreases header.an_count - k,
    {
        let ghost here = buf@;
        let a = match parse_dns_answer(&mut buf) {
            Ok(a) => a,
            Err(e) => {
                assert(parse_answers(here, (an - k) as nat) is None);
                return Err(e);
            },
        };
        proof {
            lemma_answer_wire_len(here);
            let (w, n) = parse_answer_wire(here).unwrap();
            assert(buf@ =~= after_questions.skip(used2 + n));
            let old_aws = aws;
            aws = aws.push(w);
            used2 = used2 + n;
            match parse_answers(buf@, (an - k - 1) as nat) {
                Some((rest, m)) => {
                    assert(old_aws + (seq![w] + rest) =~= aws + rest);
                },
                None => {},
            }
        }
        answers.push(a);
        k = k + 1;
    }
    proof {
        assert(parse_answers(buf@, (an - k) as nat) == Some((Seq::<AnswerWire>::empty(), 0int)));
    }
    assert(questions@.len() == header.qd_count);
    let mut unparsed: Vec<u8> = Vec::new();
    put_slice(&mut unparsed, buf);
    proof {
        assert(qws + Seq::<QuestionWire>::empty() =~= qws);
        assert(aws + Seq::<AnswerWire>::empty() =~= aws);
        assert(buf@ =~= b@.skip(12 + used + used2));
    }
    Ok(DnsPacket { header, questions, answers, unparsed })
}

} // verus!
