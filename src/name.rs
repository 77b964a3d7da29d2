use vstd::prelude::*;
use vstd::string::*;
use vstd::utf8::*;

use crate::error::ParseError;
use crate::wire::{continue_parse, put_slice, take_u8};

verus! {

/// The byte that separates the labels of a name written as text.
pub const DOT: u8 = 46;

/// Decodes the wire form of a name at the head of `b`: the labels it holds, in order, and the
/// number of bytes it covers, terminating zero included. A length byte with either of its two
/// high bits set (a compression pointer), a label that runs past the end, or a label whose
/// bytes are not UTF-8 leaves no result.
pub open spec fn parse_labels(b: Seq<u8>) -> Option<(Seq<Seq<u8>>, int)>
    decreases b.len(),
{
    if b.len() == 0 {
        None
    } else if b[0] >= 0x40 {
        None
    } else if b[0] == 0 {
        Some((Seq::empty(), 1))
    } else if b.len() < 1 + b[0] {
        None
    } else if !valid_utf8(b.subrange(1, 1 + b[0])) {
        None
    } else {
        match parse_labels(b.skip(1 + b[0])) {
            Some((ls, n)) => Some((seq![b.subrange(1, 1 + b[0])] + ls, 1 + b[0] + n)),
            None => None,
        }
    }
}

/// The text of a name: its labels joined with dots, with no dot at the end.
pub open spec fn join_labels(ls: Seq<Seq<u8>>) -> Seq<u8>
    decreases ls.len(),
{
    if ls.len() == 0 {
        Seq::empty()
    } else if ls.len() == 1 {
        ls[0]
    } else {
        join_labels(ls.drop_last()) + seq![DOT] + ls.last()
    }
}

/// The pieces of `n` between dots; a text without dots is one piece.
pub open spec fn split_dots(n: Seq<u8>) -> Seq<Seq<u8>>
    decreases n.len(),
{
    if n.len() == 0 {
        seq![Seq::empty()]
    } else {
        let init = split_dots(n.drop_last());
        if n.last() == DOT {
            init.push(Seq::empty())
        } else {
            init.update(init.len() - 1, init.last().push(n.last()))
        }
    }
}

/// Each label written as its length byte followed by its bytes.
pub open spec fn wire_labels(ls: Seq<Seq<u8>>) -> Seq<u8>
    decreases ls.len(),
{
    if ls.len() == 0 {
        Seq::empty()
    } else {
        wire_labels(ls.drop_last()) + seq![(ls.last().len() % 256) as u8] + ls.last()
    }
}

/// The wire form of the name whose text is `n`: each dot-separated piece as a label, then a
/// zero byte. The length byte of a piece keeps only the low eight bits of its length.
pub open spec fn encode_name(n: Seq<u8>) -> Seq<u8> {
    wire_labels(split_dots(n)) + seq![0u8]
}

pub proof fn lemma_split_dots_len(n: Seq<u8>)
    ensures
        split_dots(n).len() >= 1,
    decreases n.len(),
{
    if n.len() > 0 {
        lemma_split_dots_len(n.drop_last());
    }
}

/// A decoded name covers at least its terminating zero and never more than the bytes given.
pub proof fn lemma_parse_labels_len(b: Seq<u8>)
    ensures
        parse_labels(b) matches Some((ls, n)) ==> 1 <= n <= b.len(),
    decreases b.len(),
{
    if b.len() > 0 && b[0] < 0x40 && b[0] != 0 && b.len() >= 1 + b[0] {
        lemma_parse_labels_len(b.skip(1 + b[0]));
    }
}

/// Labels whose text reads back as the same labels: at least one, and none holding a dot.
pub open spec fn plain_labels(ls: Seq<Seq<u8>>) -> bool {
    &&& ls.len() > 0
    &&& forall|i: int| 0 <= i < ls.len() ==> !(#[trigger] ls[i]).contains(DOT)
}

proof fn lemma_wire_label(l: Seq<u8>)
    ensures
        wire_labels(seq![l]) == seq![(l.len() % 256) as u8] + l,
{
    let s = seq![l];
    assert(s.drop_last() =~= Seq::<Seq<u8>>::empty());
    assert(s.last() == l);
    assert(wire_labels(s.drop_last()) =~= Seq::<u8>::empty());
    assert(wire_labels(s) =~= seq![(l.len() % 256) as u8] + l);
}

/// Writing a label in front of others writes it in front of their wire form.
pub proof fn lemma_wire_labels_cons(l: Seq<u8>, ls: Seq<Seq<u8>>)
    ensures
        wire_labels(seq![l] + ls) == wire_labels(seq![l]) + wire_labels(ls),
    decreases ls.len(),
{
    if ls.len() == 0 {
        assert(seq![l] + ls =~= seq![l]);
        assert(wire_labels(seq![l]) + wire_labels(ls) =~= wire_labels(seq![l]));
    } else {
        let all = seq![l] + ls;
        assert(all.drop_last() =~= seq![l] + ls.drop_last());
        assert(all.last() == ls.last());
        lemma_wire_labels_cons(l, ls.drop_last());
        assert(wire_labels(all) =~= wire_labels(seq![l]) + wire_labels(ls));
    }
}

/// A name decodes from exactly the wire form of its labels and a zero byte; each label is
/// between 1 and 63 bytes long.
pub proof fn lemma_parse_labels_wire(b: Seq<u8>)
    requires
        parse_labels(b) is Some,
    ensures
        ({
            let (ls, n) = parse_labels(b)->0;
            &&& 0 <= n <= b.len()
            &&& b.take(n) == wire_labels(ls) + seq![0u8]
            &&& forall|i: int| 0 <= i < ls.len() ==> 1 <= (#[trigger] ls[i]).len() < 64
        }),
    decreases b.len(),
{
    lemma_parse_labels_len(b);
    if b[0] == 0 {
        assert(b.take(1) =~= seq![0u8]);
        assert(wire_labels(Seq::<Seq<u8>>::empty()) + seq![0u8] =~= seq![0u8]);
    } else {
        let len = b[0] as int;
        let label = b.subrange(1, 1 + len);
        let rest = b.skip(1 + len);
        lemma_parse_labels_wire(rest);
        let (ls, n) = parse_labels(rest)->0;
        lemma_wire_labels_cons(label, ls);
        assert(seq![label].drop_last() =~= Seq::<Seq<u8>>::empty());
        lemma_wire_label(label);
        assert(b.take(1 + len + n) =~= seq![b[0]] + label + rest.take(n));
        assert(b[0] == (len % 256) as u8);
        assert(b.take(1 + len + n) =~= wire_labels(seq![label] + ls) + seq![0u8]);
        let all = seq![label] + ls;
        assert forall|i: int| 0 <= i < all.len() implies 1 <= (#[trigger] all[i]).len() < 64 by {
            if i > 0 {
                assert(all[i] == ls[i - 1]);
            }
        }
    }
}

/// A length byte with either of its two high bits set, met where a label is expected after
/// any number of well-formed labels, makes the name fail to decode: a compressed name is
/// refused, never skipped.
pub proof fn lemma_compression_rejected(labels: Seq<Seq<u8>>, rest: Seq<u8>)
    requires
        forall|i: int|
            0 <= i < labels.len() ==> 1 <= (#[trigger] labels[i]).len() < 64 && valid_utf8(
                labels[i],
            ),
        rest.len() > 0,
        rest[0] & 0xC0 != 0,
    ensures
        parse_labels(wire_labels(labels) + rest) is None,
    decreases labels.len(),
{
    let r0 = rest[0];
    assert(r0 & 0xC0 != 0 ==> r0 >= 0x40) by (bit_vector);
    if labels.len() == 0 {
        assert(wire_labels(labels) + rest =~= rest);
    } else {
        let l = labels[0];
        let tail = labels.skip(1);
        assert(labels =~= seq![l] + tail);
        lemma_wire_labels_cons(l, tail);
        assert(seq![l].drop_last() =~= Seq::<Seq<u8>>::empty());
        let b = wire_labels(labels) + rest;
        lemma_wire_label(l);
        assert(b =~= seq![l.len() as u8] + l + (wire_labels(tail) + rest));
        assert(b.subrange(1, 1 + l.len() as int) =~= l);
        assert(b.skip(1 + l.len() as int) =~= wire_labels(tail) + rest);
        assert forall|i: int| 0 <= i < tail.len() implies 1 <= (#[trigger] tail[i]).len() < 64
            && valid_utf8(tail[i]) by {
            assert(tail[i] == labels[i + 1]);
        }
        lemma_compression_rejected(tail, rest);
    }
}

/// Appending text without dots extends the last piece.
proof fn lemma_split_extend(x: Seq<u8>, y: Seq<u8>)
    requires
        !y.contains(DOT),
    ensures
        split_dots(x + y) == split_dots(x).update(
            split_dots(x).len() - 1,
            split_dots(x).last() + y,
        ),
    decreases y.len(),
{
    lemma_split_dots_len(x);
    if y.len() == 0 {
        assert(x + y =~= x);
        assert(split_dots(x).last() + y =~= split_dots(x).last());
        assert(split_dots(x).update(split_dots(x).len() - 1, split_dots(x).last())
            =~= split_dots(x));
    } else {
        let y0 = y.drop_last();
        assert(!y0.contains(DOT)) by {
            if y0.contains(DOT) {
                let k = choose|k: int| 0 <= k < y0.len() && y0[k] == DOT;
                assert(y[k] == DOT);
            }
        }
        assert(y.last() != DOT) by {
            assert(y[y.len() - 1] == y.last());
        }
        lemma_split_extend(x, y0);
        assert((x + y).drop_last() =~= x + y0);
        assert((x + y).last() == y.last());
        assert((split_dots(x).last() + y0).push(y.last()) =~= split_dots(x).last() + y);
        assert(split_dots(x + y) =~= split_dots(x).update(
            split_dots(x).len() - 1,
            split_dots(x).last() + y,
        ));
    }
}

/// Text joined from labels without dots splits back into those labels.
pub proof fn lemma_split_join(ls: Seq<Seq<u8>>)
    requires
        plain_labels(ls),
    ensures
        split_dots(join_labels(ls)) == ls,
    decreases ls.len(),
{
    let e = Seq::<u8>::empty();
    if ls.len() == 1 {
        lemma_split_extend(e, ls[0]);
        assert(e + ls[0] =~= ls[0]);
        assert(split_dots(e).last() + ls[0] =~= ls[0]);
        assert(split_dots(join_labels(ls)) =~= ls);
    } else {
        let init = ls.drop_last();
        assert forall|i: int| 0 <= i < init.len() implies !(#[trigger] init[i]).contains(DOT) by {
            assert(init[i] == ls[i]);
        }
        lemma_split_join(init);
        let x = join_labels(init) + seq![DOT];
        assert(x.drop_last() =~= join_labels(init));
        lemma_split_dots_len(join_labels(init));
        assert(!ls.last().contains(DOT)) by {
            assert(ls[ls.len() - 1] == ls.last());
        }
        lemma_split_extend(x, ls.last());
        assert(split_dots(x) == init.push(Seq::<u8>::empty()));
        assert(Seq::<u8>::empty() + ls.last() =~= ls.last());
        assert(split_dots(join_labels(ls)) =~= ls);
    }
}

/// A name whose labels hold no dot, written back from its text, gives the very bytes it
/// was decoded from.
pub proof fn lemma_name_round_trip(b: Seq<u8>)
    requires
        parse_labels(b) matches Some((ls, n)) && plain_labels(ls),
    ensures
        encode_name(join_labels(parse_labels(b).unwrap().0)) == b.take(parse_labels(b).unwrap().1),
{
    let (ls, n) = parse_labels(b).unwrap();
    lemma_parse_labels_wire(b);
    lemma_split_join(ls);
}

proof fn lemma_dot_is_utf8()
    ensures
        valid_utf8(seq![DOT]),
{
    let s = seq![DOT];
    assert(is_leading_byte_width_1(s[0]));
    let d: u8 = DOT;
    assert((d & 0x7f) as u32 == 46) by (bit_vector)
        requires
            d == 46u8,
    ;
    assert(s[0] == d);
    assert(pop_first_scalar(s) =~= Seq::<u8>::empty());
    assert(valid_utf8(pop_first_scalar(s)));
}

/// Relies on `std::str::from_utf8`: it accepts exactly the byte slices that are valid UTF-8,
/// and the string it hands back consists of those same bytes.
#[verifier::external_body]
fn utf8_str(bytes: &[u8]) -> (r: Option<&str>)
    ensures
        r is Some <==> valid_utf8(bytes@),
        r matches Some(s) ==> s.spec_bytes() == bytes@,
{
    std::str::from_utf8(bytes).ok()
}

/// Writes a name in wire form, e.g. `example.com` as `\x07example\x03com\x00`.
pub fn serialize_dns_name(name: &str) -> (r: Vec<u8>)
    ensures
        r@ == encode_name(encode_utf8(name@)),
{
    let bytes = name.as_bytes();
    let ghost b = bytes@;
    let mut out: Vec<u8> = Vec::new();
    let mut start: usize = 0;
    let mut i: usize = 0;
    proof {
        assert(b.take(0) =~= Seq::<u8>::empty());
        assert(b.subrange(0, 0) =~= Seq::<u8>::empty());
    }
    while i < bytes.len()
        invariant
            b == bytes@,
            start <= i <= b.len(),
            split_dots(b.take(i as int)).len() >= 1,
            split_dots(b.take(i as int)).last() == b.subrange(start as int, i as int),
            out@ == wire_labels(split_dots(b.take(i as int)).drop_last()),
        decreases b.len() - i,
    {
        let ghost before = split_dots(b.take(i as int));
        proof {
            assert(b.take(i + 1).drop_last() =~= b.take(i as int));
            lemma_split_dots_len(b.take(i + 1));
        }
        if bytes[i] == DOT {
            out.push(((i - start) % 256) as u8);
            put_slice(&mut out, &bytes[start..i]);
            start = i + 1;
            proof {
                let after = split_dots(b.take(i + 1));
                assert(after == before.push(Seq::empty()));
                assert(after.drop_last() =~= before);
                assert(before.drop_last().push(before.last()) =~= before);
                assert(b.subrange(i + 1, i + 1) =~= Seq::<u8>::empty());
            }
        } else {
            proof {
                let after = split_dots(b.take(i + 1));
                assert(after.drop_last() =~= before.drop_last());
                assert(b.subrange(start as int, i + 1) =~= b.subrange(start as int, i as int).push(
                    b[i as int],
                ));
            }
        }
        i = i + 1;
    }
    let ghost pieces = split_dots(b.take(i as int));
    out.push(((i - start) % 256) as u8);
    put_slice(&mut out, &bytes[start..i]);
    out.push(0);
    proof {
        assert(b.take(i as int) =~= b);
        assert(pieces.drop_last().push(pieces.last()) =~= pieces);
        assert(out@ =~= wire_labels(pieces) + seq![0u8]);
    }
    out
}

/// Reads a name in wire form off the front of `buf`, e.g. `\x07example\x03com\x00` as
/// `example.com`, and leaves `buf` just past its terminating zero.
pub fn parse_dns_name(buf: &mut &[u8]) -> (r: Result<String, ParseError>)
    ensures
        r is Ok <==> parse_labels(old(buf)@) is Some,
        r matches Ok(name) ==> parse_labels(old(buf)@) matches Some((labels, n)) && encode_utf8(
            name@,
        ) == join_labels(labels) && final(buf)@ == old(buf)@.skip(n),
        r is Ok ==> final(buf)@.len() < old(buf)@.len(),
{
    proof {
        lemma_parse_labels_len(buf@);
    }
    let ghost start = buf@;
    let ghost mut labels: Seq<Seq<u8>> = Seq::empty();
    let ghost mut used: int = 0;
    let mut dotted: Vec<u8> = Vec::new();
    let mut first = true;
    proof {
        assert(start.skip(0) =~= start);
        assert(Seq::<Seq<u8>>::empty() + labels =~= labels);
        assert(valid_utf8(dotted@));
    }
    loop
        invariant_except_break
            parse_labels(start) == continue_parse(labels, used, parse_labels(buf@)),
        invariant
            start == old(buf)@,
            0 <= used <= start.len(),
            buf@ == start.skip(used),
            dotted@ == join_labels(labels),
            valid_utf8(dotted@),
            first == (labels.len() == 0),
        ensures
            parse_labels(start) == Some((labels, used)),
        decreases buf@.len(),
    {
        let ghost here = buf@;
        if buf.len() == 0 {
            proof {
                assert(parse_labels(here) is None);
            }
            return Err(ParseError::describe("unexpected end of buffer while parsing a name"));
        }
        let len = take_u8(buf);
        if len >= 0x40 {
            proof {
                assert(parse_labels(here) is None);
            }
            return Err(ParseError::describe("name compression is not supported"));
        }
        if len == 0 {
            proof {
                assert(labels + Seq::<Seq<u8>>::empty() =~= labels);
                assert(start.skip(used + 1) =~= here.skip(1));
                used = used + 1;
            }
            break;
        }
        if buf.len() < len as usize {
            proof {
                assert(parse_labels(here) is None);
            }
            return Err(ParseError::describe("label length exceeds the remaining buffer"));
        }
        let (label, rest) = buf.split_at(len as usize);
        proof {
            assert(label@ =~= here.subrange(1, 1 + len));
        }
        if utf8_str(label).is_none() {
            proof {
                assert(parse_labels(here) is None);
            }
            return Err(ParseError::describe("label is not valid UTF-8"));
        }
        proof {
            lemma_dot_is_utf8();
            if !first {
                valid_utf8_concat(dotted@, seq![DOT]);
                valid_utf8_concat(dotted@ + seq![DOT], label@);
            }
        }
        if !first {
            dotted.push(DOT);
        }
        put_slice(&mut dotted, label);
        *buf = rest;
        first = false;
        proof {
            let ghost old_labels = labels;
            assert(rest@ =~= here.skip(1 + len));
            labels = labels.push(label@);
            assert(labels.drop_last() =~= old_labels);
            if old_labels.len() == 0 {
                assert(dotted@ =~= label@);
            } else {
                assert(dotted@ =~= join_labels(old_labels) + seq![DOT] + label@);
            }
            assert(start.skip(used + 1 + len) =~= here.skip(1 + len));
            used = used + 1 + len;
            match parse_labels(rest@) {
                Some((ls, n)) => {
                    assert(old_labels + (seq![label@] + ls) =~= labels + ls);
                },
                None => {},
            }
        }
    }
    match utf8_str(dotted.as_slice()) {
        Some(s) => Ok(s.to_owned()),
        None => Err(ParseError::describe("name is not valid UTF-8")),
    }
}

} // verus!
