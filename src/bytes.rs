//! Fixed-width big-endian integers and null-terminated byte runs: the
//! field-level rules every record of the store format is built from.
use vstd::prelude::*;

verus! {

/// The two bytes of `x`, most significant first.
pub open spec fn be16(x: u16) -> Seq<u8> {
    seq![((x >> 8u16) & 0xff) as u8, (x & 0xff) as u8]
}

/// The four bytes of `x`, most significant first.
pub open spec fn be32(x: u32) -> Seq<u8> {
    seq![
        ((x >> 24u32) & 0xff) as u8,
        ((x >> 16u32) & 0xff) as u8,
        ((x >> 8u32) & 0xff) as u8,
        (x & 0xff) as u8,
    ]
}

/// The eight bytes of `x`, most significant first.
pub open spec fn be64(x: u64) -> Seq<u8> {
    seq![
        ((x >> 56u64) & 0xff) as u8,
        ((x >> 48u64) & 0xff) as u8,
        ((x >> 40u64) & 0xff) as u8,
        ((x >> 32u64) & 0xff) as u8,
        ((x >> 24u64) & 0xff) as u8,
        ((x >> 16u64) & 0xff) as u8,
        ((x >> 8u64) & 0xff) as u8,
        (x & 0xff) as u8,
    ]
}

/// The integer whose big-endian form is the first two bytes of `s`.
pub open spec fn from_be16(s: Seq<u8>) -> u16 {
    ((s[0] as u16) << 8u16) | (s[1] as u16)
}

/// The integer whose big-endian form is the first four bytes of `s`.
pub open spec fn from_be32(s: Seq<u8>) -> u32 {
    ((s[0] as u32) << 24u32) | ((s[1] as u32) << 16u32) | ((s[2] as u32) << 8u32) | (s[3] as u32)
}

/// The integer whose big-endian form is the first eight bytes of `s`.
pub open spec fn from_be64(s: Seq<u8>) -> u64 {
    ((s[0] as u64) << 56u64) | ((s[1] as u64) << 48u64) | ((s[2] as u64) << 40u64) | ((
    s[3] as u64) << 32u64) | ((s[4] as u64) << 24u64) | ((s[5] as u64) << 16u64) | ((
    s[6] as u64) << 8u64) | (s[7] as u64)
}

proof fn lemma_bits16(x: u16, b0: u8, b1: u8)
    by (bit_vector)
    ensures
        ((((x >> 8u16) & 0xff) as u8 as u16) << 8u16) | (((x & 0xff) as u8) as u16) == x,
        ((((((b0 as u16) << 8u16) | (b1 as u16)) >> 8u16) & 0xff) as u8) == b0,
        (((((b0 as u16) << 8u16) | (b1 as u16)) & 0xff) as u8) == b1,
{
}

proof fn lemma_bits32(x: u32, b0: u8, b1: u8, b2: u8, b3: u8)
    by (bit_vector)
    ensures
        ((((x >> 24u32) & 0xff) as u8 as u32) << 24u32) | ((((x >> 16u32) & 0xff) as u8 as u32)
            << 16u32) | ((((x >> 8u32) & 0xff) as u8 as u32) << 8u32) | ((x & 0xff) as u8 as u32)
            == x,
        (((((b0 as u32) << 24u32) | ((b1 as u32) << 16u32) | ((b2 as u32) << 8u32) | (b3 as u32))
            >> 24u32) & 0xff) as u8 == b0,
        (((((b0 as u32) << 24u32) | ((b1 as u32) << 16u32) | ((b2 as u32) << 8u32) | (b3 as u32))
            >> 16u32) & 0xff) as u8 == b1,
        (((((b0 as u32) << 24u32) | ((b1 as u32) << 16u32) | ((b2 as u32) << 8u32) | (b3 as u32))
            >> 8u32) & 0xff) as u8 == b2,
        ((((b0 as u32) << 24u32) | ((b1 as u32) << 16u32) | ((b2 as u32) << 8u32) | (b3 as u32))
            & 0xff) as u8 == b3,
{
}

proof fn lemma_bits64_value(x: u64)
    by (bit_vector)
    ensures
        ((((x >> 56u64) & 0xff) as u8 as u64) << 56u64) | ((((x >> 48u64) & 0xff) as u8 as u64)
            << 48u64) | ((((x >> 40u64) & 0xff) as u8 as u64) << 40u64) | ((((x >> 32u64)
            & 0xff) as u8 as u64) << 32u64) | ((((x >> 24u64) & 0xff) as u8 as u64) << 24u64) | ((
        ((x >> 16u64) & 0xff) as u8 as u64) << 16u64) | ((((x >> 8u64) & 0xff) as u8 as u64)
            << 8u64) | ((x & 0xff) as u8 as u64) == x,
{
}

proof fn lemma_bits64_bytes(b0: u8, b1: u8, b2: u8, b3: u8, b4: u8, b5: u8, b6: u8, b7: u8)
    by (bit_vector)
    ensures
        ({
            let x: u64 = ((b0 as u64) << 56u64) | ((b1 as u64) << 48u64) | ((b2 as u64) << 40u64)
                | ((b3 as u64) << 32u64) | ((b4 as u64) << 24u64) | ((b5 as u64) << 16u64) | ((
            b6 as u64) << 8u64) | (b7 as u64);
            &&& ((x >> 56u64) & 0xff) as u8 == b0
            &&& ((x >> 48u64) & 0xff) as u8 == b1
            &&& ((x >> 40u64) & 0xff) as u8 == b2
            &&& ((x >> 32u64) & 0xff) as u8 == b3
            &&& ((x >> 24u64) & 0xff) as u8 == b4
            &&& ((x >> 16u64) & 0xff) as u8 == b5
            &&& ((x >> 8u64) & 0xff) as u8 == b6
            &&& (x & 0xff) as u8 == b7
        }),
{
}

/// Reading back the bytes of a 16-bit integer gives the integer, and
/// two bytes are the big-endian form of the integer read from them.
pub proof fn lemma_be16(x: u16, s: Seq<u8>)
    ensures
        from_be16(be16(x) + s) == x,
        s.len() >= 2 ==> be16(from_be16(s)) == s.subrange(0, 2),
{
    lemma_bits16(x, 0, 0);
    if s.len() >= 2 {
        lemma_bits16(0, s[0], s[1]);
        assert(be16(from_be16(s)) =~= s.subrange(0, 2));
    }
}

/// The 32-bit counterpart of [`lemma_be16`].
pub proof fn lemma_be32(x: u32, s: Seq<u8>)
    ensures
        from_be32(be32(x) + s) == x,
        s.len() >= 4 ==> be32(from_be32(s)) == s.subrange(0, 4),
{
    lemma_bits32(x, 0, 0, 0, 0);
    if s.len() >= 4 {
        lemma_bits32(0, s[0], s[1], s[2], s[3]);
        assert(be32(from_be32(s)) =~= s.subrange(0, 4));
    }
}

/// The 64-bit counterpart of [`lemma_be16`].
pub proof fn lemma_be64(x: u64, s: Seq<u8>)
    ensures
        from_be64(be64(x) + s) == x,
        s.len() >= 8 ==> be64(from_be64(s)) == s.subrange(0, 8),
{
    lemma_bits64_value(x);
    if s.len() >= 8 {
        lemma_bits64_bytes(s[0], s[1], s[2], s[3], s[4], s[5], s[6], s[7]);
        assert(be64(from_be64(s)) =~= s.subrange(0, 8));
    }
}

/// Appends the big-endian form of `x`.
pub fn push_u16(out: &mut Vec<u8>, x: u16)
    ensures
        final(out)@ == old(out)@ + be16(x),
{
    out.push(((x >> 8u16) & 0xff) as u8);
    out.push((x & 0xff) as u8);
    assert(final(out)@ =~= old(out)@ + be16(x));
}

/// Appends the big-endian form of `x`.
pub fn push_u32(out: &mut Vec<u8>, x: u32)
    ensures
        final(out)@ == old(out)@ + be32(x),
{
    out.push(((x >> 24u32) & 0xff) as u8);
    out.push(((x >> 16u32) & 0xff) as u8);
    out.push(((x >> 8u32) & 0xff) as u8);
    out.push((x & 0xff) as u8);
    assert(final(out)@ =~= old(out)@ + be32(x));
}

/// Appends the big-endian form of `x`.
pub fn push_u64(out: &mut Vec<u8>, x: u64)
    ensures
        final(out)@ == old(out)@ + be64(x),
{
    out.push(((x >> 56u64) & 0xff) as u8);
    out.push(((x >> 48u64) & 0xff) as u8);
    out.push(((x >> 40u64) & 0xff) as u8);
    out.push(((x >> 32u64) & 0xff) as u8);
    out.push(((x >> 24u64) & 0xff) as u8);
    out.push(((x >> 16u64) & 0xff) as u8);
    out.push(((x >> 8u64) & 0xff) as u8);
    out.push((x & 0xff) as u8);
    assert(final(out)@ =~= old(out)@ + be64(x));
}

/// The 16-bit integer stored big-endian at `pos`.
pub fn read_u16(buf: &[u8], pos: usize) -> (r: u16)
    requires
        pos + 2 <= buf@.len(),
    ensures
        r == from_be16(buf@.subrange(pos as int, buf@.len() as int)),
{
    ((buf[pos] as u16) << 8u16) | (buf[pos + 1] as u16)
}

/// The 32-bit integer stored big-endian at `pos`.
pub fn read_u32(buf: &[u8], pos: usize) -> (r: u32)
    requires
        pos + 4 <= buf@.len(),
    ensures
        r == from_be32(buf@.subrange(pos as int, buf@.len() as int)),
{
    ((buf[pos] as u32) << 24u32) | ((buf[pos + 1] as u32) << 16u32) | ((buf[pos + 2] as u32)
        << 8u32) | (buf[pos + 3] as u32)
}

/// The 64-bit integer stored big-endian at `pos`.
pub fn read_u64(buf: &[u8], pos: usize) -> (r: u64)
    requires
        pos + 8 <= buf@.len(),
    ensures
        r == from_be64(buf@.subrange(pos as int, buf@.len() as int)),
{
    ((buf[pos] as u64) << 56u64) | ((buf[pos + 1] as u64) << 48u64) | ((buf[pos + 2] as u64)
        << 40u64) | ((buf[pos + 3] as u64) << 32u64) | ((buf[pos + 4] as u64) << 24u64) | ((buf[pos
        + 5] as u64) << 16u64) | ((buf[pos + 6] as u64) << 8u64) | (buf[pos + 7] as u64)
}


/// Position of the first zero byte of `s` at or after `p`, if any.
pub open spec fn nul_from(s: Seq<u8>, p: nat) -> Option<nat>
    decreases s.len() - p,
{
    if p >= s.len() {
        None
    } else if s[p as int] == 0 {
        Some(p)
    } else {
        nul_from(s, p + 1)
    }
}

/// `s` holds no zero byte: it can stand as a null-terminated field.
pub open spec fn no_nul(s: Seq<u8>) -> bool {
    forall|i: int| 0 <= i < s.len() ==> s[i] != 0
}

/// A zero at `q` with none in `p..q` is the one [`nul_from`] finds.
pub proof fn lemma_nul_from(s: Seq<u8>, p: nat, q: nat)
    requires
        p <= q < s.len(),
        s[q as int] == 0,
        forall|i: int| p <= i < q ==> s[i] != 0,
    ensures
        nul_from(s, p) == Some(q),
    decreases q - p,
{
    if p < q {
        lemma_nul_from(s, p + 1, q);
    }
}

/// Whatever [`nul_from`] finds is a zero with none before it.
pub proof fn lemma_nul_from_found(s: Seq<u8>, p: nat)
    ensures
        nul_from(s, p) matches Some(q) ==> p <= q < s.len() && s[q as int] == 0 && forall|i: int|
            p <= i < q ==> s[i] != 0,
    decreases s.len() - p,
{
    if p < s.len() && s[p as int] != 0 {
        lemma_nul_from_found(s, p + 1);
    }
}

/// Position of the first zero byte of `buf` at or after `pos`.
pub fn find_nul(buf: &[u8], pos: usize) -> (r: Option<usize>)
    ensures
        match r {
            Some(i) => nul_from(buf@, pos as nat) == Some(i as nat),
            None => nul_from(buf@, pos as nat) is None,
        },
{
    let mut i: usize = pos;
    if i >= buf.len() {
        return None;
    }
    while i < buf.len()
        invariant
            pos <= i <= buf@.len(),
            nul_from(buf@, pos as nat) == nul_from(buf@, i as nat),
        decreases buf@.len() - i,
    {
        if buf[i] == 0 {
            return Some(i);
        }
        i = i + 1;
    }
    None
}

/// A fresh vector holding `buf[from..to]`.
pub fn copy_range(buf: &[u8], from: usize, to: usize) -> (r: Vec<u8>)
    requires
        from <= to <= buf@.len(),
    ensures
        r@ == buf@.subrange(from as int, to as int),
{
    let mut r: Vec<u8> = Vec::with_capacity(to - from);
    let mut i: usize = from;
    while i < to
        invariant
            from <= i <= to <= buf@.len(),
            r@ == buf@.subrange(from as int, i as int),
        decreases to - i,
    {
        r.push(buf[i]);
        i = i + 1;
        assert(r@ =~= buf@.subrange(from as int, i as int));
    }
    r
}

/// Appends every byte of `src`.
pub fn push_all(out: &mut Vec<u8>, src: &[u8])
    ensures
        final(out)@ == old(out)@ + src@,
{
    let ghost start = out@;
    let mut i: usize = 0;
    while i < src.len()
        invariant
            i <= src@.len(),
            out@ == start + src@.subrange(0, i as int),
        decreases src@.len() - i,
    {
        out.push(src[i]);
        i = i + 1;
        assert(out@ =~= start + src@.subrange(0, i as int));
    }
    assert(src@.subrange(0, src@.len() as int) =~= src@);
}

} // verus!
