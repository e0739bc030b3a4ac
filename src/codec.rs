use vstd::prelude::*;

verus! {

/// The two bytes of `v`, most significant first.
pub open spec fn be16(v: u16) -> Seq<u8> {
    seq![((v >> 8u16) & 0xffu16) as u8, (v & 0xffu16) as u8]
}

/// The eight bytes of `v`, most significant first.
pub open spec fn be64(v: u64) -> Seq<u8> {
    seq![
        ((v >> 56u64) & 0xffu64) as u8,
        ((v >> 48u64) & 0xffu64) as u8,
        ((v >> 40u64) & 0xffu64) as u8,
        ((v >> 32u64) & 0xffu64) as u8,
        ((v >> 24u64) & 0xffu64) as u8,
        ((v >> 16u64) & 0xffu64) as u8,
        ((v >> 8u64) & 0xffu64) as u8,
        (v & 0xffu64) as u8,
    ]
}

pub open spec fn be16_of(a: u8, b: u8) -> u16 {
    ((a as u16) << 8u16) | (b as u16)
}

pub open spec fn be64_of(a: u8, b: u8, c: u8, d: u8, e: u8, f: u8, g: u8, h: u8) -> u64 {
    ((a as u64) << 56u64) | ((b as u64) << 48u64) | ((c as u64) << 40u64) | ((d as u64) << 32u64) | (
    (e as u64) << 24u64) | ((f as u64) << 16u64) | ((g as u64) << 8u64) | (h as u64)
}

/// The big-endian `u16` at position `i` of `s`.
pub open spec fn be16_at(s: Seq<u8>, i: int) -> u16 {
    be16_of(s[i], s[i + 1])
}

/// The big-endian `u64` at position `i` of `s`.
pub open spec fn be64_at(s: Seq<u8>, i: int) -> u64 {
    be64_of(s[i], s[i + 1], s[i + 2], s[i + 3], s[i + 4], s[i + 5], s[i + 6], s[i + 7])
}

proof fn lemma_be16_bits(v: u16)
    ensures
        be16_of(((v >> 8u16) & 0xffu16) as u8, (v & 0xffu16) as u8) == v,
{
    assert(((((v >> 8u16) & 0xffu16) as u8 as u16) << 8u16) | (((v & 0xffu16) as u8) as u16) == v)
        by (bit_vector);
}

proof fn lemma_be64_bits(v: u64)
    ensures
        be64_of(
            ((v >> 56u64) & 0xffu64) as u8,
            ((v >> 48u64) & 0xffu64) as u8,
            ((v >> 40u64) & 0xffu64) as u8,
            ((v >> 32u64) & 0xffu64) as u8,
            ((v >> 24u64) & 0xffu64) as u8,
            ((v >> 16u64) & 0xffu64) as u8,
            ((v >> 8u64) & 0xffu64) as u8,
            (v & 0xffu64) as u8,
        ) == v,
{
    assert((((((v >> 56u64) & 0xffu64) as u8) as u64) << 56u64) | (((((v >> 48u64) & 0xffu64) as u8)
        as u64) << 48u64) | (((((v >> 40u64) & 0xffu64) as u8) as u64) << 40u64) | (((((v >> 32u64)
        & 0xffu64) as u8) as u64) << 32u64) | (((((v >> 24u64) & 0xffu64) as u8) as u64) << 24u64)
        | (((((v >> 16u64) & 0xffu64) as u8) as u64) << 16u64) | (((((v >> 8u64) & 0xffu64) as u8)
        as u64) << 8u64) | (((v & 0xffu64) as u8) as u64) == v) by (bit_vector);
}

proof fn lemma_be16_bytes(a: u8, b: u8)
    ensures
        be16(be16_of(a, b)) == seq![a, b],
{
    let v = be16_of(a, b);
    assert(((v >> 8u16) & 0xffu16) as u8 == a && (v & 0xffu16) as u8 == b) by (bit_vector)
        requires
            v == ((a as u16) << 8u16) | (b as u16),
    ;
    assert(be16(v) =~= seq![a, b]);
}

proof fn lemma_be64_bytes(a: u8, b: u8, c: u8, d: u8, e: u8, f: u8, g: u8, h: u8)
    ensures
        be64(be64_of(a, b, c, d, e, f, g, h)) == seq![a, b, c, d, e, f, g, h],
{
    let v = be64_of(a, b, c, d, e, f, g, h);
    assert(((v >> 56u64) & 0xffu64) as u8 == a && ((v >> 48u64) & 0xffu64) as u8 == b && ((v
        >> 40u64) & 0xffu64) as u8 == c && ((v >> 32u64) & 0xffu64) as u8 == d && ((v >> 24u64)
        & 0xffu64) as u8 == e && ((v >> 16u64) & 0xffu64) as u8 == f && ((v >> 8u64) & 0xffu64) as u8
        == g && (v & 0xffu64) as u8 == h) by (bit_vector)
        requires
            v == ((a as u64) << 56u64) | ((b as u64) << 48u64) | ((c as u64) << 40u64) | ((d as u64)
                << 32u64) | ((e as u64) << 24u64) | ((f as u64) << 16u64) | ((g as u64) << 8u64) | (h as u64),
    ;
    assert(be64(v) =~= seq![a, b, c, d, e, f, g, h]);
}

/// Reading back the two bytes written for `v` gives `v`.
pub proof fn lemma_be16_round_trip(v: u16, rest: Seq<u8>)
    ensures
        be16_at(be16(v) + rest, 0) == v,
{
    lemma_be16_bits(v);
}

/// Reading back the eight bytes written for `v` gives `v`.
pub proof fn lemma_be64_round_trip(v: u64, rest: Seq<u8>)
    ensures
        be64_at(be64(v) + rest, 0) == v,
{
    lemma_be64_bits(v);
}

/// The two bytes at `i` are those that encode the value read there.
pub proof fn lemma_be16_at_bytes(s: Seq<u8>, i: int)
    requires
        0 <= i && i + 2 <= s.len(),
    ensures
        be16(be16_at(s, i)) == s.subrange(i, i + 2),
{
    lemma_be16_bytes(s[i], s[i + 1]);
    assert(s.subrange(i, i + 2) =~= seq![s[i], s[i + 1]]);
}

/// The eight bytes at `i` are those that encode the value read there.
pub proof fn lemma_be64_at_bytes(s: Seq<u8>, i: int)
    requires
        0 <= i && i + 8 <= s.len(),
    ensures
        be64(be64_at(s, i)) == s.subrange(i, i + 8),
{
    lemma_be64_bytes(s[i], s[i + 1], s[i + 2], s[i + 3], s[i + 4], s[i + 5], s[i + 6], s[i + 7]);
    assert(s.subrange(i, i + 8) =~= seq![
        s[i],
        s[i + 1],
        s[i + 2],
        s[i + 3],
        s[i + 4],
        s[i + 5],
        s[i + 6],
        s[i + 7],
    ]);
}

pub fn put_u8(buf: &mut Vec<u8>, v: u8)
    ensures
        final(buf)@ == old(buf)@ + seq![v],
{
    buf.push(v);
    assert(buf@ =~= old(buf)@ + seq![v]);
}

pub fn put_u16(buf: &mut Vec<u8>, v: u16)
    ensures
        final(buf)@ == old(buf)@ + be16(v),
{
    buf.push(((v >> 8) & 0xff) as u8);
    buf.push((v & 0xff) as u8);
    assert(buf@ =~= old(buf)@ + be16(v));
}

pub fn put_u64(buf: &mut Vec<u8>, v: u64)
    ensures
        final(buf)@ == old(buf)@ + be64(v),
{
    buf.push(((v >> 56) & 0xff) as u8);
    buf.push(((v >> 48) & 0xff) as u8);
    buf.push(((v >> 40) & 0xff) as u8);
    buf.push(((v >> 32) & 0xff) as u8);
    buf.push(((v >> 24) & 0xff) as u8);
    buf.push(((v >> 16) & 0xff) as u8);
    buf.push(((v >> 8) & 0xff) as u8);
    buf.push((v & 0xff) as u8);
    assert(buf@ =~= old(buf)@ + be64(v));
}

pub fn put_slice(buf: &mut Vec<u8>, data: &[u8])
    ensures
        final(buf)@ == old(buf)@ + data@,
{
    let mut k: usize = 0;
    while k < data.len()
        invariant
            k <= data@.len(),
            buf@ == old(buf)@ + data@.subrange(0, k as int),
        decreases data@.len() - k,
    {
        buf.push(data[k]);
        k += 1;
        assert(buf@ =~= old(buf)@ + data@.subrange(0, k as int));
    }
    assert(data@.subrange(0, data@.len() as int) =~= data@);
}

pub fn get_u16(data: &[u8], pos: usize) -> (r: u16)
    requires
        pos + 2 <= data@.len(),
    ensures
        r == be16_at(data@, pos as int),
{
    ((data[pos] as u16) << 8) | (data[pos + 1] as u16)
}

pub fn get_u64(data: &[u8], pos: usize) -> (r: u64)
    requires
        pos + 8 <= data@.len(),
    ensures
        r == be64_at(data@, pos as int),
{
    ((data[pos] as u64) << 56) | ((data[pos + 1] as u64) << 48) | ((data[pos + 2] as u64) << 40) | ((
    data[pos + 3] as u64) << 32) | ((data[pos + 4] as u64) << 24) | ((data[pos + 5] as u64) << 16) | ((
    data[pos + 6] as u64) << 8) | (data[pos + 7] as u64)
}

} // verus!
