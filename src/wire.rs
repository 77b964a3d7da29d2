use vstd::prelude::*;

verus! {

/// The result of a parse that has already read the items `done` in `used` bytes and goes on
/// with `rest` for the remaining ones.
pub open spec fn continue_parse<T>(done: Seq<T>, used: int, rest: Option<(Seq<T>, int)>) -> Option<
    (Seq<T>, int),
> {
    match rest {
        Some((items, n)) => Some((done + items, used + n)),
        None => None,
    }
}

/// The value of two bytes read in network (big-endian) order.
pub open spec fn be16(hi: u8, lo: u8) -> u16 {
    (hi as int * 256 + lo as int) as u16
}

/// The value of four bytes read in network (big-endian) order.
pub open spec fn be32(b0: u8, b1: u8, b2: u8, b3: u8) -> u32 {
    (b0 as int * 0x100_0000 + b1 as int * 0x1_0000 + b2 as int * 0x100 + b3 as int) as u32
}

/// The two bytes that write `v` in network order.
pub open spec fn be16_bytes(v: u16) -> Seq<u8> {
    seq![(v / 256) as u8, (v % 256) as u8]
}

/// The four bytes that write `v` in network order.
pub open spec fn be32_bytes(v: u32) -> Seq<u8> {
    seq![
        (v / 0x100_0000) as u8,
        ((v / 0x1_0000) % 256) as u8,
        ((v / 0x100) % 256) as u8,
        (v % 256) as u8,
    ]
}

pub proof fn lemma_be16_of_bytes(hi: u8, lo: u8)
    ensures
        be16_bytes(be16(hi, lo)) == seq![hi, lo],
{
    assert(be16_bytes(be16(hi, lo)) =~= seq![hi, lo]);
}

pub proof fn lemma_be32_of_bytes(b0: u8, b1: u8, b2: u8, b3: u8)
    ensures
        be32_bytes(be32(b0, b1, b2, b3)) == seq![b0, b1, b2, b3],
{
    let v = be32(b0, b1, b2, b3);
    assert(v == b0 as int * 0x100_0000 + b1 as int * 0x1_0000 + b2 as int * 0x100 + b3 as int);
    assert(v / 0x100_0000 == b0) by (nonlinear_arith)
        requires
            v == b0 as int * 0x100_0000 + b1 as int * 0x1_0000 + b2 as int * 0x100 + b3 as int,
            0 <= b1 < 256,
            0 <= b2 < 256,
            0 <= b3 < 256,
    ;
    assert((v / 0x1_0000) % 256 == b1) by (nonlinear_arith)
        requires
            v == b0 as int * 0x100_0000 + b1 as int * 0x1_0000 + b2 as int * 0x100 + b3 as int,
            0 <= b0 < 256,
            0 <= b1 < 256,
            0 <= b2 < 256,
            0 <= b3 < 256,
    ;
    assert((v / 0x100) % 256 == b2) by (nonlinear_arith)
        requires
            v == b0 as int * 0x100_0000 + b1 as int * 0x1_0000 + b2 as int * 0x100 + b3 as int,
            0 <= b0 < 256,
            0 <= b1 < 256,
            0 <= b2 < 256,
            0 <= b3 < 256,
    ;
    assert(be32_bytes(v) =~= seq![b0, b1, b2, b3]);
}

/// Takes the first byte off the front of `buf`.
pub(crate) fn take_u8(buf: &mut &[u8]) -> (r: u8)
    requires
        old(buf)@.len() >= 1,
    ensures
        r == old(buf)@[0],
        final(buf)@ == old(buf)@.skip(1),
{
    let r = buf[0];
    let (_, rest) = buf.split_at(1);
    *buf = rest;
    r
}

/// Takes a network-order 16-bit integer off the front of `buf`.
pub(crate) fn take_u16(buf: &mut &[u8]) -> (r: u16)
    requires
        old(buf)@.len() >= 2,
    ensures
        r == be16(old(buf)@[0], old(buf)@[1]),
        final(buf)@ == old(buf)@.skip(2),
{
    let r = buf[0] as u16 * 256 + buf[1] as u16;
    let (_, rest) = buf.split_at(2);
    *buf = rest;
    r
}

/// Takes a network-order 32-bit integer off the front of `buf`.
pub(crate) fn take_u32(buf: &mut &[u8]) -> (r: u32)
    requires
        old(buf)@.len() >= 4,
    ensures
        r == be32(old(buf)@[0], old(buf)@[1], old(buf)@[2], old(buf)@[3]),
        final(buf)@ == old(buf)@.skip(4),
{
    let r = buf[0] as u32 * 0x100_0000 + buf[1] as u32 * 0x1_0000 + buf[2] as u32 * 0x100
        + buf[3] as u32;
    let (_, rest) = buf.split_at(4);
    *buf = rest;
    r
}

/// Drops the first `n` bytes off the front of `buf`.
pub(crate) fn skip_bytes(buf: &mut &[u8], n: usize)
    requires
        old(buf)@.len() >= n,
    ensures
        final(buf)@ == old(buf)@.skip(n as int),
{
    let (_, rest) = buf.split_at(n);
    *buf = rest;
}

/// Takes the first `n` bytes off the front of `buf` and hands them back as a vector.
pub(crate) fn take_bytes(buf: &mut &[u8], n: usize) -> (r: Vec<u8>)
    requires
        old(buf)@.len() >= n,
    ensures
        r@ == old(buf)@.take(n as int),
        final(buf)@ == old(buf)@.skip(n as int),
{
    let (head, rest) = buf.split_at(n);
    let mut r: Vec<u8> = Vec::with_capacity(n);
    put_slice(&mut r, head);
    *buf = rest;
    r
}

/// Appends a network-order 16-bit integer.
pub(crate) fn put_u16(out: &mut Vec<u8>, v: u16)
    ensures
        final(out)@ == old(out)@ + be16_bytes(v),
{
    out.push((v / 256) as u8);
    out.push((v % 256) as u8);
    assert(final(out)@ =~= old(out)@ + be16_bytes(v));
}

/// Appends a network-order 32-bit integer.
pub(crate) fn put_u32(out: &mut Vec<u8>, v: u32)
    ensures
        final(out)@ == old(out)@ + be32_bytes(v),
{
    out.push((v / 0x100_0000) as u8);
    out.push(((v / 0x1_0000) % 256) as u8);
    out.push(((v / 0x100) % 256) as u8);
    out.push((v % 256) as u8);
    assert(final(out)@ =~= old(out)@ + be32_bytes(v));
}

/// Appends every byte of `s`, in order.
pub(crate) fn put_slice(out: &mut Vec<u8>, s: &[u8])
    ensures
        final(out)@ == old(out)@ + s@,
{
    let ghost start = out@;
    let mut i: usize = 0;
    while i < s.len()
        invariant
            i <= s@.len(),
            out@ == start + s@.take(i as int),
        decreases s@.len() - i,
    {
        out.push(s[i]);
        i = i + 1;
        assert(out@ =~= start + s@.take(i as int));
    }
    assert(s@.take(i as int) =~= s@);
}

} // verus!
