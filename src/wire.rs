//! The ROS1 wire format of the image messages that the recordings carry.
//!
//! Every integer is little-endian; a string or byte array is a 32-bit length
//! followed by its bytes.
use vstd::prelude::*;

verus! {

/// The four little-endian bytes of `x`.
#[verifier::opaque]
pub open spec fn u32_le(x: u32) -> Seq<u8> {
    seq![
        (x % 256) as u8,
        (x / 256 % 256) as u8,
        (x / 256 / 256 % 256) as u8,
        (x / 256 / 256 / 256 % 256) as u8,
    ]
}

/// The value of the four little-endian bytes of `s` that start at `i`.
#[verifier::opaque]
pub open spec fn le_u32_at(s: Seq<u8>, i: int) -> nat {
    (s[i] + 256 * (s[i + 1] + 256 * (s[i + 2] + 256 * s[i + 3]))) as nat
}

/// A length-prefixed field.
#[verifier::opaque]
pub open spec fn field(b: Seq<u8>) -> Seq<u8> {
    u32_le(b.len() as u32) + b
}

/// The length-prefixed field of `s` that starts at `pos`, and the position after it.
#[verifier::opaque]
pub open spec fn parse_field(s: Seq<u8>, pos: int) -> Option<(Seq<u8>, int)> {
    if 0 <= pos && pos + 4 <= s.len() && pos + 4 + le_u32_at(s, pos) <= s.len() {
        let end = pos + 4 + le_u32_at(s, pos);
        Some((s.subrange(pos + 4, end), end))
    } else {
        None
    }
}

proof fn lemma_bytes_value(x: u32)
    ensures
        ({
            let b = u32_le(x);
            b[0] + 256 * (b[1] + 256 * (b[2] + 256 * b[3])) == x
        }),
{
    reveal(u32_le);
    let q1 = x / 256;
    let q2 = q1 / 256;
    let q3 = q2 / 256;
    assert(x == x % 256 + 256 * q1);
    assert(q1 == q1 % 256 + 256 * q2);
    assert(q2 == q2 % 256 + 256 * q3);
    assert(q3 < 256);
    assert(q3 % 256 == q3);
}

pub proof fn lemma_value_bytes(s: Seq<u8>, i: int)
    requires
        0 <= i,
        i + 4 <= s.len(),
    ensures
        le_u32_at(s, i) < 0x1_0000_0000,
        u32_le(le_u32_at(s, i) as u32) == s.subrange(i, i + 4),
{
    reveal(u32_le);
    reveal(le_u32_at);
    let (b0, b1, b2, b3) = (s[i] as int, s[i + 1] as int, s[i + 2] as int, s[i + 3] as int);
    let x = b0 + 256 * (b1 + 256 * (b2 + 256 * b3));
    let q1 = b1 + 256 * (b2 + 256 * b3);
    let q2 = b2 + 256 * b3;
    assert(x % 256 == b0 && x / 256 == q1) by {
        vstd::arithmetic::div_mod::lemma_fundamental_div_mod_converse(x, 256, q1, b0);
    }
    assert(q1 % 256 == b1 && q1 / 256 == q2) by {
        vstd::arithmetic::div_mod::lemma_fundamental_div_mod_converse(q1, 256, q2, b1);
    }
    assert(q2 % 256 == b2 && q2 / 256 == b3) by {
        vstd::arithmetic::div_mod::lemma_fundamental_div_mod_converse(q2, 256, b3, b2);
    }
    assert(b3 % 256 == b3);
    assert(u32_le(x as u32) =~= s.subrange(i, i + 4));
}

pub proof fn lemma_lengths(x: u32, b: Seq<u8>)
    ensures
        u32_le(x).len() == 4,
        field(b).len() == 4 + b.len(),
{
    reveal(u32_le);
    reveal(field);
}

/// Where a field can be read, its length is bounded by the input.
pub proof fn lemma_parse_field_span(s: Seq<u8>, pos: int)
    requires
        parse_field(s, pos) is Some,
    ensures
        ({
            let (b, end) = parse_field(s, pos)->Some_0;
            0 <= pos && pos + 4 <= end && end <= s.len() && b.len() == end - pos - 4 && b.len()
                < 0x1_0000_0000
        }),
{
    reveal(parse_field);
    lemma_value_bytes(s, pos);
}

/// Reading a 32-bit value back from its four bytes, wherever they stand.
pub proof fn lemma_read_u32(a: Seq<u8>, x: u32, c: Seq<u8>)
    ensures
        le_u32_at(a + u32_le(x) + c, a.len() as int) == x,
{
    reveal(u32_le);
    reveal(le_u32_at);
    let s = a + u32_le(x) + c;
    let n = a.len() as int;
    assert(s[n] == u32_le(x)[0]);
    assert(s[n + 1] == u32_le(x)[1]);
    assert(s[n + 2] == u32_le(x)[2]);
    assert(s[n + 3] == u32_le(x)[3]);
    lemma_bytes_value(x);
}

/// Reading a field back, wherever it stands.
pub proof fn lemma_read_field(a: Seq<u8>, b: Seq<u8>, c: Seq<u8>)
    requires
        b.len() < 0x1_0000_0000,
    ensures
        parse_field(a + field(b) + c, a.len() as int) == Some(
            (b, (a.len() + 4 + b.len()) as int),
        ),
{
    reveal(u32_le);
    reveal(field);
    reveal(parse_field);
    let s = a + field(b) + c;
    let n = a.len() as int;
    assert(s =~= a + u32_le(b.len() as u32) + (b + c));
    lemma_read_u32(a, b.len() as u32, b + c);
    assert(s.subrange(n + 4, n + 4 + b.len()) =~= b);
}

/// A field parsed out of `s` is `s`'s bytes between the two positions.
pub proof fn lemma_field_bytes(s: Seq<u8>, pos: int)
    requires
        parse_field(s, pos) is Some,
    ensures
        ({
            let (b, end) = parse_field(s, pos)->Some_0;
            field(b) == s.subrange(pos, end)
        }),
{
    reveal(field);
    reveal(parse_field);
    let (b, end) = parse_field(s, pos)->Some_0;
    lemma_value_bytes(s, pos);
    assert(b.len() == le_u32_at(s, pos));
    assert(field(b) =~= s.subrange(pos, end));
}

/// Appends the four little-endian bytes of `x`.
pub fn push_u32(out: &mut Vec<u8>, x: u32)
    ensures
        final(out)@ == old(out)@ + u32_le(x),
{
    proof {
        reveal(u32_le);
    }
    out.push((x % 256) as u8);
    out.push((x / 256 % 256) as u8);
    out.push((x / 256 / 256 % 256) as u8);
    out.push((x / 256 / 256 / 256 % 256) as u8);
    assert(out@ =~= old(out)@ + u32_le(x));
}

/// Appends `b` as a length-prefixed field.
pub fn push_field(out: &mut Vec<u8>, b: &[u8])
    requires
        b@.len() < 0x1_0000_0000,
    ensures
        final(out)@ == old(out)@ + field(b@),
{
    proof {
        reveal(field);
    }
    push_u32(out, b.len() as u32);
    let ghost start = out@;
    let mut i: usize = 0;
    while i < b.len()
        invariant
            i <= b@.len(),
            out@ == start + b@.subrange(0, i as int),
        decreases b@.len() - i,
    {
        out.push(b[i]);
        i = i + 1;
        assert(out@ =~= start + b@.subrange(0, i as int));
    }
    assert(b@.subrange(0, b@.len() as int) =~= b@);
}

/// The 32-bit value whose little-endian bytes start at `pos`.
pub fn read_u32(s: &[u8], pos: usize) -> (r: u32)
    requires
        pos + 4 <= s@.len(),
    ensures
        r == le_u32_at(s@, pos as int),
{
    proof {
        reveal(le_u32_at);
    }
    let b0 = s[pos] as u32;
    let b1 = s[pos + 1] as u32;
    let b2 = s[pos + 2] as u32;
    let b3 = s[pos + 3] as u32;
    assert(b0 + 256 * (b1 + 256 * (b2 + 256 * b3)) < 0x1_0000_0000) by (nonlinear_arith)
        requires
            b0 < 256,
            b1 < 256,
            b2 < 256,
            b3 < 256,
    ;
    b0 + 256 * (b1 + 256 * (b2 + 256 * b3))
}

/// The length-prefixed field that starts at `pos`, with the position after it,
/// or `None` where the input ends before the field does.
pub fn read_field(s: &[u8], pos: usize) -> (r: Option<(Vec<u8>, usize)>)
    ensures
        match parse_field(s@, pos as int) {
            Some((b, end)) => r matches Some((v, e)) && v@ == b && e == end,
            None => r is None,
        },
{
    proof {
        reveal(parse_field);
    }
    if pos > s.len() || s.len() - pos < 4 {
        return None;
    }
    let n = read_u32(s, pos) as usize;
    if s.len() - pos - 4 < n {
        return None;
    }
    let start = pos + 4;
    let end = start + n;
    let mut v: Vec<u8> = Vec::new();
    let mut i: usize = start;
    while i < end
        invariant
            start <= i <= end,
            end <= s@.len(),
            v@ == s@.subrange(start as int, i as int),
        decreases end - i,
    {
        v.push(s[i]);
        i = i + 1;
        assert(v@ =~= s@.subrange(start as int, i as int));
    }
    Some((v, end))
}

/// Appends the bytes of `src`.
pub fn extend_bytes(dst: &mut Vec<u8>, src: &[u8])
    ensures
        final(dst)@ == old(dst)@ + src@,
{
    let mut i: usize = 0;
    while i < src.len()
        invariant
            i <= src@.len(),
            dst@ == old(dst)@ + src@.subrange(0, i as int),
        decreases src@.len() - i,
    {
        dst.push(src[i]);
        i = i + 1;
        assert(dst@ =~= old(dst)@ + src@.subrange(0, i as int));
    }
    assert(src@.subrange(0, src@.len() as int) =~= src@);
}

} // verus!
