use vstd::prelude::*;

use crate::error::ParseError;
use crate::packet::{encode_packet, packet_holds, parse_dns_query, parse_message_wire, DnsPacket};
use crate::reply::{construct_reply, is_reply};
use crate::wire::{be16, be16_bytes, put_slice, put_u16};
use crate::zone_config::ZoneConfig;

verus! {

/// What the bytes `data` of one datagram or stream frame get back: an error when they are not
/// a message, nothing when the message is itself a response, and otherwise the bytes of the
/// reply that `config` gives to it.
pub fn answer_message(config: &ZoneConfig, data: &[u8]) -> (r: Result<Option<Vec<u8>>, ParseError>)
    ensures
        r is Err <==> parse_message_wire(data@) is None,
        r matches Ok(out) ==> (out is None <==> parse_message_wire(data@)->0.header.response),
        r matches Ok(Some(bytes)) ==> exists|query: DnsPacket, reply: DnsPacket|
            packet_holds(query, parse_message_wire(data@)->0) && is_reply(*config, query, reply)
                && bytes@ == encode_packet(reply),
{
    let query = match parse_dns_query(data) {
        Ok(p) => p,
        Err(e) => {
            return Err(e);
        },
    };
    match construct_reply(config, &query) {
        Some(reply) => {
            let bytes = reply.serialize();
            Ok(Some(bytes))
        },
        None => Ok(None),
    }
}

/// Why a stream connection ended before its peer closed it cleanly.
#[derive(Debug, PartialEq)]
pub enum StreamError {
    /// The peer closed the stream in the middle of a frame.
    UnexpectedEof,
    /// A frame did not hold a message.
    Malformed(ParseError),
}

/// The first complete frame at the head of `b` (a 2-byte network-order length, then that many
/// bytes) and what follows it; none while the frame is incomplete.
pub open spec fn split_frame(b: Seq<u8>) -> Option<(Seq<u8>, Seq<u8>)> {
    if b.len() < 2 {
        None
    } else if b.len() < 2 + be16(b[0], b[1]) {
        None
    } else {
        Some((b.subrange(2, 2 + be16(b[0], b[1])), b.skip(2 + be16(b[0], b[1]))))
    }
}

/// The frame that carries `bytes` on a stream: their length, kept to its low 16 bits, then
/// the bytes.
pub open spec fn frame_of(bytes: Seq<u8>) -> Seq<u8> {
    be16_bytes((bytes.len() % 0x1_0000) as u16) + bytes
}

/// Writes `bytes` as one stream frame.
pub fn frame_message(bytes: &[u8]) -> (r: Vec<u8>)
    ensures
        r@ == frame_of(bytes@),
{
    let mut out: Vec<u8> = Vec::new();
    put_u16(&mut out, (bytes.len() % 0x1_0000) as u16);
    put_slice(&mut out, bytes);
    out
}

/// The bytes received on one stream connection that do not yet form a complete frame.
pub struct StreamBuffer {
    pub pending: Vec<u8>,
}

impl StreamBuffer {
    pub fn new() -> (r: StreamBuffer)
        ensures
            r.pending@.len() == 0,
    {
        StreamBuffer { pending: Vec::new() }
    }

    /// Adds bytes that arrived on the stream.
    pub fn push(&mut self, chunk: &[u8])
        ensures
            final(self).pending@ == old(self).pending@ + chunk@,
    {
        put_slice(&mut self.pending, chunk);
    }

    /// Takes the next complete frame off the front, when there is one.
    pub fn next_frame(&mut self) -> (r: Option<Vec<u8>>)
        ensures
            split_frame(old(self).pending@) is None ==> r is None && final(self).pending@ == old(
                self,
            ).pending@,
            split_frame(old(self).pending@) matches Some((frame, rest)) ==> r matches Some(f)
                && f@ == frame && final(self).pending@ == rest,
    {
        let len = self.pending.len();
        if len < 2 {
            return None;
        }
        let n = self.pending[0] as usize * 256 + self.pending[1] as usize;
        assert(n == be16(self.pending@[0], self.pending@[1]));
        if len - 2 < n {
            return None;
        }
        let mut frame: Vec<u8> = Vec::new();
        put_slice(&mut frame, &self.pending[2..2 + n]);
        let mut rest: Vec<u8> = Vec::new();
        put_slice(&mut rest, &self.pending[2 + n..len]);
        proof {
            assert(rest@ =~= old(self).pending@.skip(2 + n));
        }
        self.pending = rest;
        Some(frame)
    }

    /// The peer closed the stream: clean when it did so between frames, an unexpected end
    /// of stream when part of a frame is still waiting.
    pub fn finish(&self) -> (r: Result<(), StreamError>)
        ensures
            r is Ok <==> self.pending@.len() == 0,
            r is Err ==> r == Err::<(), StreamError>(StreamError::UnexpectedEof),
    {
        if self.pending.len() == 0 {
            Ok(())
        } else {
            Err(StreamError::UnexpectedEof)
        }
    }
}

/// What one complete stream frame gets back: the framed reply to the message it carries,
/// nothing for a response, or the error that ends the connection.
pub fn answer_frame(config: &ZoneConfig, frame: &[u8]) -> (r: Result<Option<Vec<u8>>, StreamError>)
    ensures
        r is Err <==> parse_message_wire(frame@) is None,
        r matches Err(e) ==> e is Malformed,
        r matches Ok(out) ==> (out is None <==> parse_message_wire(frame@)->0.header.response),
        r matches Ok(Some(bytes)) ==> exists|query: DnsPacket, reply: DnsPacket|
            packet_holds(query, parse_message_wire(frame@)->0) && is_reply(*config, query, reply)
                && bytes@ == frame_of(encode_packet(reply)),
{
    match answer_message(config, frame) {
        Ok(Some(reply)) => Ok(Some(frame_message(reply.as_slice()))),
        Ok(None) => Ok(None),
        Err(e) => Err(StreamError::Malformed(e)),
    }
}

/// Where a finished unit of work came from.
#[derive(Debug, Clone, Copy, PartialEq, Eq, Structural)]
pub enum WorkKind {
    Datagram,
    Stream,
}

/// What the serving loop does once a unit of work has finished.
#[derive(Debug, Clone, Copy, PartialEq, Eq, Structural)]
pub enum LoopAction {
    KeepServing,
    Stop,
}

/// The serving loop stops at the first failed datagram; a stream connection's failure ends
/// that connection alone.
pub fn after_work(kind: WorkKind, failed: bool) -> (r: LoopAction)
    ensures
        r == (if kind == WorkKind::Datagram && failed {
            LoopAction::Stop
        } else {
            LoopAction::KeepServing
        }),
{
    match kind {
        WorkKind::Datagram => if failed {
            LoopAction::Stop
        } else {
            LoopAction::KeepServing
        },
        WorkKind::Stream => LoopAction::KeepServing,
    }
}

} // verus!
