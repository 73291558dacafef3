//! Little-endian base-128 variable-length encoding of 32-bit integers.
use vstd::prelude::*;
use crate::CodecError;

verus! {

/// The bytes that encode `x`: seven bits per byte, lowest first, with the
/// high bit of each byte set when more bytes follow.
pub open spec fn uvarint_bytes(x: u32) -> Seq<u8>
    decreases x,
{
    if x < 0x80 {
        seq![x as u8]
    } else {
        seq![(x % 128 + 128) as u8] + uvarint_bytes(x / 128)
    }
}

/// Reads the varint whose byte number `i` stands at index `i` of `s`:
/// its value and the index just past it, or `None` when the bytes run out,
/// the varint goes past five bytes, or its fifth byte exceeds 0x0f.
pub open spec fn uvarint_at(s: Seq<u8>, i: nat) -> Option<(u32, nat)>
    decreases 5 - i,
{
    if i >= 5 || i >= s.len() {
        None
    } else if s[i as int] < 0x80 {
        if i == 4 && s[i as int] > 0x0f {
            None
        } else {
            Some((s[i as int] as u32, i + 1))
        }
    } else {
        match uvarint_at(s, i + 1) {
            Some((v, e)) => Some((((s[i as int] & 0x7f) as u32) | (v << 7u32), e)),
            None => None,
        }
    }
}

/// The zig-zag image of a 32-bit signed integer.
pub open spec fn zig32(x: i32) -> u32 {
    if x >= 0 {
        (2 * x) as u32
    } else {
        (-2 * x - 1) as u32
    }
}

/// The inverse of `zig32`.
pub open spec fn unzig32(v: u32) -> i32 {
    if v % 2 == 0 {
        (v / 2) as i32
    } else {
        (-((v / 2) as int) - 1) as i32
    }
}

/// The bytes that encode the signed integer `x`.
pub open spec fn varint_bytes(x: i32) -> Seq<u8> {
    uvarint_bytes(zig32(x))
}

/// An encoding takes one byte for each started group of seven bits.
pub proof fn lemma_uvarint_len(x: u32)
    ensures
        1 <= uvarint_bytes(x).len() <= 5,
        x < 0x80 ==> uvarint_bytes(x).len() == 1,
        x < 0x4000 ==> uvarint_bytes(x).len() <= 2,
        x < 0x20_0000 ==> uvarint_bytes(x).len() <= 3,
        x < 0x1000_0000 ==> uvarint_bytes(x).len() <= 4,
    decreases x,
{
    if x >= 0x80 {
        lemma_uvarint_len(x / 128);
    }
}

/// Appends the encoding of `x` to `buf` and returns the number of bytes written.
pub fn put_uvarint32(buf: &mut Vec<u8>, x: u32) -> (r: usize)
    ensures
        final(buf)@ == old(buf)@ + uvarint_bytes(x),
        r == uvarint_bytes(x).len(),
        1 <= r <= 5,
{
    proof {
        lemma_uvarint_len(x);
    }
    let ghost start = buf@;
    let mut y: u32 = x;
    let mut i: usize = 0;
    while y >= 0x80
        invariant
            buf@ + uvarint_bytes(y) == start + uvarint_bytes(x),
            i + uvarint_bytes(y).len() == uvarint_bytes(x).len(),
            buf@.len() == start.len() + i,
            uvarint_bytes(x).len() <= 5,
        decreases y,
    {
        let b: u8 = (y as u8) | 0x80;
        let next: u32 = y >> 7u32;
        assert(b == (y % 128 + 128) as u8 && next == y / 128) by (bit_vector)
            requires
                b == (y as u8) | 0x80,
                next == y >> 7u32,
        ;
        let ghost before = buf@;
        buf.push(b);
        assert(uvarint_bytes(y) == seq![b] + uvarint_bytes(next));
        assert(buf@ + uvarint_bytes(next) =~= before + uvarint_bytes(y));
        y = next;
        i += 1;
    }
    buf.push(y as u8);
    assert(buf@ =~= start + uvarint_bytes(x));
    i + 1
}

proof fn lemma_continue(x: u32, c: u32, v: u32, shift: u32)
    by (bit_vector)
    requires
        shift <= 21,
        x < (1u32 << shift),
        c < 128,
    ensures
        (x | ((c | (v << 7u32)) << shift)) == ((x | (c << shift)) | (v << ((shift + 7) as u32))),
        (x | (c << shift)) < (1u32 << ((shift + 7) as u32)),
{
}

/// Reads a varint from the front of `buf`: its value and the number of
/// bytes it takes.
pub fn uvarint32(buf: &[u8]) -> (r: Result<(u32, usize), CodecError>)
    ensures
        r is Ok <==> uvarint_at(buf@, 0) is Some,
        r matches Ok((v, n)) ==> uvarint_at(buf@, 0) == Some((v, n as nat)),
        r is Err ==> r == Err::<(u32, usize), CodecError>(CodecError::VarintOverflow),
{
    let ghost s = buf@;
    let mut x: u32 = 0;
    let mut shift: u32 = 0;
    let mut i: usize = 0;
    proof {
        match uvarint_at(s, 0) {
            Some((v, e)) => {
                assert((0u32 | (v << 0u32)) == v) by (bit_vector);
            },
            None => {},
        }
        assert(0u32 < (1u32 << 0u32)) by (bit_vector);
    }
    while i < 5
        invariant
            s == buf@,
            i <= 5,
            shift == 7 * i,
            x < (1u32 << shift),
            uvarint_at(s, 0) == match uvarint_at(s, i as nat) {
                Some((v, e)) => Some((x | (v << shift), e)),
                None => None::<(u32, nat)>,
            },
        decreases 5 - i,
    {
        if i >= buf.len() {
            return Err(CodecError::VarintOverflow);
        }
        let b = buf[i];
        if b < 0x80 {
            if i == 4 && b > 0x0f {
                return Err(CodecError::VarintOverflow);
            }
            return Ok((x | ((b as u32) << shift), i + 1));
        }
        if i == 4 {
            assert(uvarint_at(s, 5) is None);
            return Err(CodecError::VarintOverflow);
        }
        let c: u32 = (b & 0x7f) as u32;
        proof {
            assert(c < 128) by (bit_vector)
                requires
                    c == (b & 0x7f) as u32,
            ;
            match uvarint_at(s, (i + 1) as nat) {
                Some((v2, e)) => {
                    lemma_continue(x, c, v2, shift);
                },
                None => {},
            }
            lemma_continue(x, c, 0, shift);
        }
        x = x | (c << shift);
        shift = shift + 7;
        i = i + 1;
    }
    Err(CodecError::VarintOverflow)
}

/// Reads a signed (zig-zag) varint from the front of `buf`: its value and
/// the number of bytes it takes.
pub fn varint32(buf: &[u8]) -> (r: Result<(i32, usize), CodecError>)
    ensures
        r is Ok <==> uvarint_at(buf@, 0) is Some,
        r matches Ok((v, n)) ==> (uvarint_at(buf@, 0) matches Some((u, e)) && v == unzig32(u)
            && n == e),
        r is Err ==> r == Err::<(i32, usize), CodecError>(CodecError::VarintOverflow),
{
    let (ux, n) = uvarint32(buf)?;
    let mut x: i32 = (ux >> 1u32) as i32;
    if ux & 1 != 0 {
        x = !x;
    }
    assert(x == unzig32(ux)) by (bit_vector)
        requires
            x == (if ux & 1 != 0 { !((ux >> 1u32) as i32) } else { (ux >> 1u32) as i32 }),
    ;
    Ok((x, n))
}

/// Appends the zig-zag encoding of `x` to `buf` and returns the number of
/// bytes written.
pub fn put_varint32(buf: &mut Vec<u8>, x: i32) -> (r: usize)
    ensures
        final(buf)@ == old(buf)@ + varint_bytes(x),
        r == varint_bytes(x).len(),
        1 <= r <= 5,
{
    let mut ux: u32 = (x as u32) << 1u32;
    if x < 0 {
        ux = !ux;
    }
    assert(ux == zig32(x)) by (bit_vector)
        requires
            ux == (if x < 0 { !((x as u32) << 1u32) } else { (x as u32) << 1u32 }),
    ;
    put_uvarint32(buf, ux)
}

/// The largest value, plus one, that a varint can still hold from its byte
/// number `i` on.
pub open spec fn uvarint_room(i: nat) -> nat {
    if i == 0 {
        0x1_0000_0000
    } else if i == 1 {
        0x200_0000
    } else if i == 2 {
        0x4_0000
    } else if i == 3 {
        0x800
    } else if i == 4 {
        0x10
    } else {
        0
    }
}

proof fn lemma_uvarint_at_bytes(x: u32, s: Seq<u8>, i: int)
    requires
        0 <= i,
        x < uvarint_room(i as nat),
        i + uvarint_bytes(x).len() <= s.len(),
        s.subrange(i, i + uvarint_bytes(x).len()) == uvarint_bytes(x),
    ensures
        uvarint_at(s, i as nat) == Some((x, (i + uvarint_bytes(x).len()) as nat)),
    decreases x,
{
    let b = uvarint_bytes(x);
    assert(s[i] == s.subrange(i, i + b.len())[0]);
    if x >= 0x80 {
        let y = x / 128;
        let rest = uvarint_bytes(y);
        assert(b == seq![(x % 128 + 128) as u8] + rest);
        assert(s.subrange(i + 1, i + 1 + rest.len()) =~= s.subrange(i, i + b.len()).subrange(
            1,
            b.len() as int,
        ));
        assert(b.subrange(1, b.len() as int) =~= rest);
        lemma_uvarint_at_bytes(y, s, i + 1);
        let c = s[i];
        assert(c == (x % 128 + 128) as u8);
        assert(((c & 0x7f) as u32 | (y << 7u32)) == x) by (bit_vector)
            requires
                c == (x % 128 + 128) as u8,
                y == x / 128,
        ;
    }
}

/// Reading a varint back from bytes that start with its encoding gives
/// the value and the encoding's length.
pub proof fn lemma_uvarint_round_trip(x: u32, rest: Seq<u8>)
    ensures
        uvarint_at(uvarint_bytes(x) + rest, 0) == Some((x, uvarint_bytes(x).len())),
{
    let s = uvarint_bytes(x) + rest;
    assert(s.subrange(0, uvarint_bytes(x).len() as int) =~= uvarint_bytes(x));
    lemma_uvarint_at_bytes(x, s, 0);
}

/// Zig-zag decoding undoes zig-zag encoding, for every 32-bit integer.
pub proof fn lemma_zig32_round_trip(x: i32)
    ensures
        unzig32(zig32(x)) == x,
{
}

} // verus!
