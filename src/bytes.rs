//! Big-endian integers in byte strings, and the longest common prefix.
use vstd::prelude::*;

verus! {

/// The number that two bytes stand for, most significant byte first.
pub open spec fn be16(b: Seq<u8>) -> nat {
    b[0] as nat * 256 + b[1] as nat
}

/// The number that four bytes stand for, most significant byte first.
pub open spec fn be32(b: Seq<u8>) -> nat {
    b[0] as nat * 16777216 + b[1] as nat * 65536 + b[2] as nat * 256 + b[3] as nat
}

/// The four bytes of `x`, most significant first.
pub open spec fn be32_bytes(x: u32) -> Seq<u8> {
    seq![
        (x / 16777216) as u8,
        ((x / 65536) % 256) as u8,
        ((x / 256) % 256) as u8,
        (x % 256) as u8,
    ]
}

/// The two bytes of `x`, most significant first.
pub open spec fn be16_bytes(x: u16) -> Seq<u8> {
    seq![(x / 256) as u8, (x % 256) as u8]
}

/// Reading back the bytes written for `x` gives `x`.
pub proof fn lemma_be16_round_trip(x: u16)
    ensures
        be16_bytes(x).len() == 2,
        be16(be16_bytes(x)) == x,
{
    let b = be16_bytes(x);
    assert(b[0] as nat == x as nat / 256);
    assert(b[1] as nat == x as nat % 256);
}

/// Reading back the bytes written for `x` gives `x`.
pub proof fn lemma_be32_round_trip(x: u32)
    ensures
        be32_bytes(x).len() == 4,
        be32(be32_bytes(x)) == x,
{
    let b = be32_bytes(x);
    assert(b[0] as nat == x as nat / 16777216);
    assert(b[1] as nat == (x as nat / 65536) % 256);
    assert(b[2] as nat == (x as nat / 256) % 256);
    assert(b[3] as nat == x as nat % 256);
    assert(be32(b) == x) by (nonlinear_arith)
        requires
            b[0] as nat == x as nat / 16777216,
            b[1] as nat == (x as nat / 65536) % 256,
            b[2] as nat == (x as nat / 256) % 256,
            b[3] as nat == x as nat % 256,
            x as nat <= 0xffff_ffff,
            be32(b) == b[0] as nat * 16777216 + b[1] as nat * 65536 + b[2] as nat * 256
                + b[3] as nat,
    ;
}

/// Four bytes are the bytes written for the number they stand for.
pub proof fn lemma_be32_bytes_of(b: Seq<u8>, x: u32)
    requires
        b.len() == 4,
        be32(b) == x,
    ensures
        b == be32_bytes(x),
{
    let (b0, b1, b2, b3) = (b[0] as nat, b[1] as nat, b[2] as nat, b[3] as nat);
    let n = x as nat;
    assert(n / 16777216 == b0 && (n / 65536) % 256 == b1 && (n / 256) % 256 == b2 && n % 256
        == b3) by (nonlinear_arith)
        requires
            b0 < 256,
            b1 < 256,
            b2 < 256,
            b3 < 256,
            n == b0 * 16777216 + b1 * 65536 + b2 * 256 + b3,
    ;
    assert(b =~= be32_bytes(x));
}

/// Two-byte big-endian integer at `pos`.
pub fn read_u16_be(buf: &[u8], pos: usize) -> (r: u16)
    requires
        pos + 2 <= buf@.len(),
    ensures
        r as nat == be16(buf@.subrange(pos as int, pos + 2)),
{
    let hi = buf[pos] as u16;
    let lo = buf[pos + 1] as u16;
    hi * 256 + lo
}

/// Four-byte big-endian integer at `pos`.
pub fn read_u32_be(buf: &[u8], pos: usize) -> (r: u32)
    requires
        pos + 4 <= buf@.len(),
    ensures
        r as nat == be32(buf@.subrange(pos as int, pos + 4)),
{
    let b0 = buf[pos] as u32;
    let b1 = buf[pos + 1] as u32;
    let b2 = buf[pos + 2] as u32;
    let b3 = buf[pos + 3] as u32;
    b0 * 16777216 + b1 * 65536 + b2 * 256 + b3
}

/// Appends the four big-endian bytes of `x`.
pub fn write_u32_be(buf: &mut Vec<u8>, x: u32)
    ensures
        final(buf)@ == old(buf)@ + be32_bytes(x),
{
    buf.push((x / 16777216) as u8);
    buf.push(((x / 65536) % 256) as u8);
    buf.push(((x / 256) % 256) as u8);
    buf.push((x % 256) as u8);
    assert(final(buf)@ =~= old(buf)@ + be32_bytes(x));
}

/// `n` is the length of the longest common prefix of `a` and `b`.
pub open spec fn is_lcp_len(a: Seq<u8>, b: Seq<u8>, n: int) -> bool {
    &&& 0 <= n <= a.len()
    &&& n <= b.len()
    &&& forall|i: int| 0 <= i < n ==> a[i] == b[i]
    &&& (n == a.len() || n == b.len() || a[n] != b[n])
}

/// The longest prefix of `v1` that is also a prefix of `v2`.
pub fn lcp<'a>(v1: &'a [u8], v2: &[u8]) -> (r: &'a [u8])
    ensures
        is_lcp_len(v1@, v2@, r@.len() as int),
        r@ == v1@.subrange(0, r@.len() as int),
{
    let min_len: usize = if v1.len() < v2.len() {
        v1.len()
    } else {
        v2.len()
    };
    let mut i: usize = 0;
    while i < min_len && v1[i] == v2[i]
        invariant
            min_len <= v1@.len(),
            min_len <= v2@.len(),
            min_len == v1@.len() || min_len == v2@.len(),
            i <= min_len,
            forall|j: int| 0 <= j < i ==> v1@[j] == v2@[j],
        decreases min_len - i,
    {
        i = i + 1;
    }
    vstd::slice::slice_subrange(v1, 0, i)
}

} // verus!

verus! {

/// Appends every byte of `src`, in order.
pub fn extend_bytes(buf: &mut Vec<u8>, src: &[u8])
    ensures
        final(buf)@ == old(buf)@ + src@,
{
    let mut i: usize = 0;
    while i < src.len()
        invariant
            i <= src@.len(),
            buf@ == old(buf)@ + src@.subrange(0, i as int),
        decreases src@.len() - i,
    {
        buf.push(src[i]);
        i = i + 1;
        assert(buf@ =~= old(buf)@ + src@.subrange(0, i as int));
    }
    assert(src@.subrange(0, i as int) =~= src@);
}

} // verus!

verus! {

/// Whether `a` comes strictly before `b` in lexicographic byte order.
pub open spec fn lex_lt(a: Seq<u8>, b: Seq<u8>) -> bool
    decreases a.len(),
{
    if a.len() == 0 {
        b.len() > 0
    } else if b.len() == 0 {
        false
    } else if a[0] != b[0] {
        a[0] < b[0]
    } else {
        lex_lt(a.drop_first(), b.drop_first())
    }
}

/// Whether `a` comes strictly before `b` in lexicographic byte order.
pub fn lex_less(a: &[u8], b: &[u8]) -> (r: bool)
    ensures
        r == lex_lt(a@, b@),
{
    let mut i: usize = 0;
    assert(a@.subrange(0, a@.len() as int) =~= a@);
    assert(b@.subrange(0, b@.len() as int) =~= b@);
    while i < a.len() && i < b.len() && a[i] == b[i]
        invariant
            i <= a@.len(),
            i <= b@.len(),
            lex_lt(a@, b@) == lex_lt(
                a@.subrange(i as int, a@.len() as int),
                b@.subrange(i as int, b@.len() as int),
            ),
        decreases a@.len() - i,
    {
        let ghost sa = a@.subrange(i as int, a@.len() as int);
        let ghost sb = b@.subrange(i as int, b@.len() as int);
        assert(sa.drop_first() =~= a@.subrange(i + 1, a@.len() as int));
        assert(sb.drop_first() =~= b@.subrange(i + 1, b@.len() as int));
        i = i + 1;
    }
    let ghost sa = a@.subrange(i as int, a@.len() as int);
    let ghost sb = b@.subrange(i as int, b@.len() as int);
    if i == a.len() {
        i < b.len()
    } else if i == b.len() {
        false
    } else {
        assert(sa[0] == a@[i as int] && sb[0] == b@[i as int]);
        a[i] < b[i]
    }
}

} // verus!
