use vstd::prelude::*;

use crate::error::ParseError;
use crate::wire::{be16, be16_bytes, lemma_be16_of_bytes, put_u16, take_u16, take_u8};

verus! {

/// The kind of operation that a message asks for.
#[derive(Debug, Clone, Copy, PartialEq, Eq, Structural)]
pub enum OpCode {
    QUERY,
    IQUERY,
    STATUS,
    /// Every code from 3 up.
    RESERVED,
}

/// The variant that a 4-bit operation code stands for.
pub open spec fn opcode_of_code(code: u8) -> OpCode {
    if code == 0 {
        OpCode::QUERY
    } else if code == 1 {
        OpCode::IQUERY
    } else if code == 2 {
        OpCode::STATUS
    } else {
        OpCode::RESERVED
    }
}

/// The code that an operation kind is written as.
pub open spec fn code_of_opcode(op: OpCode) -> u8 {
    match op {
        OpCode::QUERY => 0,
        OpCode::IQUERY => 1,
        OpCode::STATUS => 2,
        OpCode::RESERVED => 3,
    }
}

fn parse_opcode(code: u8) -> (r: OpCode)
    ensures
        r == opcode_of_code(code),
{
    match code {
        0 => OpCode::QUERY,
        1 => OpCode::IQUERY,
        2 => OpCode::STATUS,
        _ => OpCode::RESERVED,
    }
}

impl OpCode {
    pub fn to_u8(self) -> (r: u8)
        ensures
            r == code_of_opcode(self),
    {
        match self {
            OpCode::QUERY => 0,
            OpCode::IQUERY => 1,
            OpCode::STATUS => 2,
            OpCode::RESERVED => 3,
        }
    }
}

/// The outcome that a response reports.
#[derive(Debug, Clone, Copy, PartialEq, Eq, Structural)]
pub enum RCode {
    NoError,
    FormErr,
    ServFail,
    NXDomain,
    NotImp,
    Refused,
    /// Every code from 6 up; written as 15.
    RESERVED,
}

/// The variant that a 4-bit result code stands for.
pub open spec fn rcode_of_code(code: u8) -> RCode {
    if code == 0 {
        RCode::NoError
    } else if code == 1 {
        RCode::FormErr
    } else if code == 2 {
        RCode::ServFail
    } else if code == 3 {
        RCode::NXDomain
    } else if code == 4 {
        RCode::NotImp
    } else if code == 5 {
        RCode::Refused
    } else {
        RCode::RESERVED
    }
}

/// The code that a result is written as.
pub open spec fn code_of_rcode(rc: RCode) -> u8 {
    match rc {
        RCode::NoError => 0,
        RCode::FormErr => 1,
        RCode::ServFail => 2,
        RCode::NXDomain => 3,
        RCode::NotImp => 4,
        RCode::Refused => 5,
        RCode::RESERVED => 15,
    }
}

fn parse_rcode(code: u8) -> (r: RCode)
    ensures
        r == rcode_of_code(code),
{
    match code {
        0 => RCode::NoError,
        1 => RCode::FormErr,
        2 => RCode::ServFail,
        3 => RCode::NXDomain,
        4 => RCode::NotImp,
        5 => RCode::Refused,
        _ => RCode::RESERVED,
    }
}

impl RCode {
    pub fn to_u8(self) -> (r: u8)
        ensures
            r == code_of_rcode(self),
    {
        match self {
            RCode::NoError => 0,
            RCode::FormErr => 1,
            RCode::ServFail => 2,
            RCode::NXDomain => 3,
            RCode::NotImp => 4,
            RCode::Refused => 5,
            RCode::RESERVED => 15,
        }
    }
}

/// The fixed twelve-byte header that opens every message.
#[derive(Debug, Clone, Copy, PartialEq, Eq, Structural)]
pub struct DnsHeader {
    pub transaction_id: u16,
    pub response: bool,
    pub opcode: OpCode,
    pub authoritative_answer: bool,
    pub truncation: bool,
    pub recursion_desired: bool,
    pub recursion_available: bool,
    pub _reserved: bool,
    pub authenticated_data: bool,
    pub checking_disabled: bool,
    pub rcode: RCode,
    pub qd_count: u16,
    pub an_count: u16,
    pub ns_count: u16,
    pub ar_count: u16,
}

/// Bit `k` of byte `b`, counting from the least significant, given as its weight `2^k`.
pub open spec fn bit_set(b: u8, weight: int) -> bool {
    (b as int / weight) % 2 == 1
}

/// `weight` when `flag` is set, zero otherwise.
pub open spec fn flag_value(flag: bool, weight: int) -> int {
    if flag {
        weight
    } else {
        0
    }
}

/// The header that twelve bytes hold: the identifier, the flags of the third byte (response,
/// 4-bit operation code, authoritative, truncated, recursion desired), those of the fourth
/// (recursion available, reserved, authenticated data, checking disabled, 4-bit result code)
/// and the four counts.
pub open spec fn header_of(b: Seq<u8>) -> DnsHeader
    recommends
        b.len() >= 12,
{
    DnsHeader {
        transaction_id: be16(b[0], b[1]),
        response: bit_set(b[2], 128),
        opcode: opcode_of_code(((b[2] / 8) % 16) as u8),
        authoritative_answer: bit_set(b[2], 4),
        truncation: bit_set(b[2], 2),
        recursion_desired: bit_set(b[2], 1),
        recursion_available: bit_set(b[3], 128),
        _reserved: bit_set(b[3], 64),
        authenticated_data: bit_set(b[3], 32),
        checking_disabled: bit_set(b[3], 16),
        rcode: rcode_of_code((b[3] % 16) as u8),
        qd_count: be16(b[4], b[5]),
        an_count: be16(b[6], b[7]),
        ns_count: be16(b[8], b[9]),
        ar_count: be16(b[10], b[11]),
    }
}

/// The header at the head of `b`: none when fewer than twelve bytes are there or when the
/// reserved bit is set.
pub open spec fn parse_header_spec(b: Seq<u8>) -> Option<DnsHeader> {
    if b.len() < 12 || bit_set(b[3], 64) {
        None
    } else {
        Some(header_of(b))
    }
}

/// The third byte of a header's wire form.
pub open spec fn flags_hi(h: DnsHeader) -> u8 {
    (flag_value(h.response, 128) + code_of_opcode(h.opcode) * 8 + flag_value(
        h.authoritative_answer,
        4,
    ) + flag_value(h.truncation, 2) + flag_value(h.recursion_desired, 1)) as u8
}

/// The fourth byte of a header's wire form.
pub open spec fn flags_lo(h: DnsHeader) -> u8 {
    (flag_value(h.recursion_available, 128) + flag_value(h._reserved, 64) + flag_value(
        h.authenticated_data,
        32,
    ) + flag_value(h.checking_disabled, 16) + code_of_rcode(h.rcode)) as u8
}

/// The twelve bytes that write a header.
pub open spec fn encode_header(h: DnsHeader) -> Seq<u8> {
    be16_bytes(h.transaction_id) + seq![flags_hi(h), flags_lo(h)] + be16_bytes(h.qd_count)
        + be16_bytes(h.an_count) + be16_bytes(h.ns_count) + be16_bytes(h.ar_count)
}

/// The operation code and result code of the header in `b` have variants of their own: the
/// operation code is at most 3, the result code at most 5 or exactly 15.
pub open spec fn header_codes_kept(b: Seq<u8>) -> bool {
    &&& (b[2] / 8) % 16 <= 3
    &&& (b[3] % 16 <= 5 || b[3] % 16 == 15)
}

proof fn lemma_flag_bits(v: u8)
    ensures
        v as int == ((v as int / 128) % 2) * 128 + ((v as int / 8) % 16) * 8 + ((v as int / 4) % 2)
            * 4 + ((v as int / 2) % 2) * 2 + v as int % 2,
        v as int == ((v as int / 128) % 2) * 128 + ((v as int / 64) % 2) * 64 + ((v as int / 32)
            % 2) * 32 + ((v as int / 16) % 2) * 16 + v as int % 16,
{
    assert(v == (v / 128) * 128 + ((v / 8) % 16) * 8 + ((v / 4) % 2) * 4 + ((v / 2) % 2) * 2 + v
        % 2) by (bit_vector);
    assert(v == (v / 128) * 128 + ((v / 64) % 2) * 64 + ((v / 32) % 2) * 32 + ((v / 16) % 2) * 16
        + v % 16) by (bit_vector);
    assert(v / 128 < 2) by (bit_vector);
}

/// A decoded header whose codes have variants of their own is written back as the twelve
/// bytes it came from.
pub proof fn lemma_header_round_trip(b: Seq<u8>)
    requires
        parse_header_spec(b) is Some,
        header_codes_kept(b),
    ensures
        encode_header(parse_header_spec(b).unwrap()) == b.take(12),
{
    let h = parse_header_spec(b).unwrap();
    let x = b[2] as int;
    let y = b[3] as int;
    assert(code_of_opcode(h.opcode) == (x / 8) % 16);
    assert(code_of_rcode(h.rcode) == y % 16);
    lemma_flag_bits(b[2]);
    lemma_flag_bits(b[3]);
    assert(flags_hi(h) == b[2]);
    assert(flags_lo(h) == b[3]);
    lemma_be16_of_bytes(b[0], b[1]);
    lemma_be16_of_bytes(b[4], b[5]);
    lemma_be16_of_bytes(b[6], b[7]);
    lemma_be16_of_bytes(b[8], b[9]);
    lemma_be16_of_bytes(b[10], b[11]);
    assert(encode_header(h) =~= b.take(12));
}

impl DnsHeader {
    pub fn serialize(&self) -> (r: Vec<u8>)
        ensures
            r@ == encode_header(*self),
    {
        let mut buf: Vec<u8> = Vec::with_capacity(12);
        put_u16(&mut buf, self.transaction_id);
        let hi: u8 = (if self.response {
            128u8
        } else {
            0u8
        }) + self.opcode.to_u8() * 8 + (if self.authoritative_answer {
            4u8
        } else {
            0u8
        }) + (if self.truncation {
            2u8
        } else {
            0u8
        }) + (if self.recursion_desired {
            1u8
        } else {
            0u8
        });
        let lo: u8 = (if self.recursion_available {
            128u8
        } else {
            0u8
        }) + (if self._reserved {
            64u8
        } else {
            0u8
        }) + (if self.authenticated_data {
            32u8
        } else {
            0u8
        }) + (if self.checking_disabled {
            16u8
        } else {
            0u8
        }) + self.rcode.to_u8();
        buf.push(hi);
        buf.push(lo);
        put_u16(&mut buf, self.qd_count);
        put_u16(&mut buf, self.an_count);
        put_u16(&mut buf, self.ns_count);
        put_u16(&mut buf, self.ar_count);
        assert(buf@ =~= encode_header(*self));
        buf
    }
}

/// Reads the twelve-byte header off the front of `buf`.
pub fn parse_dns_header(buf: &mut &[u8]) -> (r: Result<DnsHeader, ParseError>)
    ensures
        r is Ok <==> parse_header_spec(old(buf)@) is Some,
        r matches Ok(h) ==> parse_header_spec(old(buf)@) == Some(h) && final(buf)@ == old(
            buf,
        )@.skip(12),
{
    let ghost start = buf@;
    if buf.len() < 12 {
        return Err(ParseError::describe("not enough bytes for a header"));
    }
    let transaction_id = take_u16(buf);
    let byte2 = take_u8(buf);
    let byte3 = take_u8(buf);
    let qd_count = take_u16(buf);
    let an_count = take_u16(buf);
    let ns_count = take_u16(buf);
    let ar_count = take_u16(buf);
    proof {
        assert(byte2 == start[2] && byte3 == start[3]);
        assert(qd_count == be16(start[4], start[5]));
        assert(an_count == be16(start[6], start[7]));
        assert(ns_count == be16(start[8], start[9]));
        assert(ar_count == be16(start[10], start[11]));
        assert(buf@ =~= start.skip(12));
    }
    if (byte3 / 64) % 2 == 1 {
        return Err(ParseError::describe("the reserved header bit must be 0"));
    }
    Ok(
        DnsHeader {
            transaction_id,
            response: (byte2 / 128) % 2 == 1,
            opcode: parse_opcode((byte2 / 8) % 16),
            authoritative_answer: (byte2 / 4) % 2 == 1,
            truncation: (byte2 / 2) % 2 == 1,
            recursion_desired: byte2 % 2 == 1,
            recursion_available: (byte3 / 128) % 2 == 1,
            _reserved: (byte3 / 64) % 2 == 1,
            authenticated_data: (byte3 / 32) % 2 == 1,
            checking_disabled: (byte3 / 16) % 2 == 1,
            rcode: parse_rcode(byte3 % 16),
            qd_count,
            an_count,
            ns_count,
            ar_count,
        },
    )
}

} // verus!
