use vstd::prelude::*;

verus! {

/// The largest value a variable-length integer can hold: 2^62 - 1.
pub const MAX_VARINT: u64 = 4611686018427387903;

/// Errors produced while decoding wire data.
#[derive(Debug, Clone, Copy, PartialEq, Eq, Structural)]
pub enum DecodeError {
    /// The buffer ended before the value was complete.
    More,
    /// A tag or enum value is not known.
    InvalidValue,
    /// A decoded integer does not fit in the target type.
    BoundsExceeded,
    /// The message type is not the expected one.
    InvalidMessage(u64),
    /// A subscribe location is malformed.
    InvalidSubscribeLocation,
    /// A required parameter is absent.
    MissingParameter,
    /// A parameter is present that must not be.
    InvalidParameter,
    /// A string is not valid UTF-8.
    InvalidString,
}

/// Number of bytes used to encode `v`.
pub open spec fn varint_size_spec(v: u64) -> nat {
    if v < 64 {
        1
    } else if v < 16384 {
        2
    } else if v < 1073741824 {
        4
    } else {
        8
    }
}

pub open spec fn byte_of(v: u64, shift: u64) -> u8 {
    ((v >> shift) & 0xff) as u8
}

/// The canonical (shortest) QUIC encoding of `v`.
#[verifier::opaque]
pub open spec fn varint_encoding(v: u64) -> Seq<u8> {
    if v < 64 {
        seq![v as u8]
    } else if v < 16384 {
        seq![(0x40u64 | (v >> 8u64)) as u8, byte_of(v, 0)]
    } else if v < 1073741824 {
        seq![(0x80u64 | (v >> 24u64)) as u8, byte_of(v, 16), byte_of(v, 8), byte_of(v, 0)]
    } else {
        seq![
            (0xc0u64 | (v >> 56u64)) as u8,
            byte_of(v, 48),
            byte_of(v, 40),
            byte_of(v, 32),
            byte_of(v, 24),
            byte_of(v, 16),
            byte_of(v, 8),
            byte_of(v, 0),
        ]
    }
}

/// Length of the encoding announced by the top two bits of its first byte.
pub open spec fn varint_len_of_first(b0: u8) -> nat {
    if b0 >> 6u8 == 0 {
        1
    } else if b0 >> 6u8 == 1 {
        2
    } else if b0 >> 6u8 == 2 {
        4
    } else {
        8
    }
}

pub open spec fn low6(b0: u8) -> u64 {
    (b0 & 0x3f) as u64
}

/// The value held by the encoding at the start of `b` (whose length is at least
/// the announced length).
pub open spec fn varint_value(b: Seq<u8>) -> u64 {
    let n = varint_len_of_first(b[0]);
    if n == 1 {
        low6(b[0])
    } else if n == 2 {
        (low6(b[0]) << 8u64) | (b[1] as u64)
    } else if n == 4 {
        (low6(b[0]) << 24u64) | ((b[1] as u64) << 16u64) | ((b[2] as u64) << 8u64) | (b[3] as u64)
    } else {
        (low6(b[0]) << 56u64) | ((b[1] as u64) << 48u64) | ((b[2] as u64) << 40u64) | ((b[3] as u64)
            << 32u64) | ((b[4] as u64) << 24u64) | ((b[5] as u64) << 16u64) | ((b[6] as u64)
            << 8u64) | (b[7] as u64)
    }
}

/// Decoding the varint at the start of `b`: the value and the number of bytes
/// it occupies, or `None` when `b` is too short.
#[verifier::opaque]
pub open spec fn varint_decode(b: Seq<u8>) -> Option<(u64, nat)> {
    if b.len() == 0 {
        None
    } else if b.len() < varint_len_of_first(b[0]) {
        None
    } else {
        Some((varint_value(b), varint_len_of_first(b[0])))
    }
}

/// Decoding as a result: `More` when `b` is too short.
pub open spec fn varint_parse(b: Seq<u8>) -> Result<(u64, nat), DecodeError> {
    match varint_decode(b) {
        None => Err(DecodeError::More),
        Some(x) => Ok(x),
    }
}

/// The bytes of `b` from `pos` on.
pub open spec fn rest(b: Seq<u8>, pos: int) -> Seq<u8> {
    b.subrange(pos, b.len() as int)
}

/// A parse result on the bytes from `pos`, with the length turned into the
/// position just after the value.
pub open spec fn at_pos<T>(pos: usize, p: Result<(T, nat), DecodeError>) -> Result<(T, usize), DecodeError> {
    match p {
        Ok((t, n)) => Ok((t, (pos + n) as usize)),
        Err(e) => Err(e),
    }
}

pub fn varint_size(v: u64) -> (r: usize)
    requires
        v <= MAX_VARINT,
    ensures
        r == varint_size_spec(v),
        r == varint_encoding(v).len(),
{
    reveal(varint_encoding);
    if v < 64 {
        1
    } else if v < 16384 {
        2
    } else if v < 1073741824 {
        4
    } else {
        8
    }
}

/// Appends the canonical encoding of `v` to `buf`.
pub fn encode_varint(v: u64, buf: &mut Vec<u8>)
    requires
        v <= MAX_VARINT,
    ensures
        final(buf)@ == old(buf)@ + varint_encoding(v),
{
    reveal(varint_encoding);
    if v < 64 {
        buf.push(v as u8);
    } else if v < 16384 {
        buf.push((0x40u64 | (v >> 8u64)) as u8);
        buf.push(((v >> 0u64) & 0xff) as u8);
    } else if v < 1073741824 {
        buf.push((0x80u64 | (v >> 24u64)) as u8);
        buf.push(((v >> 16u64) & 0xff) as u8);
        buf.push(((v >> 8u64) & 0xff) as u8);
        buf.push(((v >> 0u64) & 0xff) as u8);
    } else {
        buf.push((0xc0u64 | (v >> 56u64)) as u8);
        buf.push(((v >> 48u64) & 0xff) as u8);
        buf.push(((v >> 40u64) & 0xff) as u8);
        buf.push(((v >> 32u64) & 0xff) as u8);
        buf.push(((v >> 24u64) & 0xff) as u8);
        buf.push(((v >> 16u64) & 0xff) as u8);
        buf.push(((v >> 8u64) & 0xff) as u8);
        buf.push(((v >> 0u64) & 0xff) as u8);
    }
    assert(buf@ =~= old(buf)@ + varint_encoding(v));
}

/// Decodes the varint that starts at `pos`; returns the value and the position
/// just after it.
pub fn decode_varint(buf: &[u8], pos: usize) -> (r: Result<(u64, usize), DecodeError>)
    requires
        pos <= buf@.len(),
    ensures
        r == at_pos(pos, varint_parse(rest(buf@, pos as int))),
        r matches Ok((_, end)) ==> pos < end <= buf@.len(),
        varint_parse(rest(buf@, pos as int)) matches Ok((_, n)) ==> 0 < n && pos + n <= buf@.len(),
{
    reveal(varint_decode);
    let ghost rest = buf@.subrange(pos as int, buf@.len() as int);
    if pos >= buf.len() {
        return Err(DecodeError::More);
    }
    let b0 = buf[pos];
    let tag = b0 >> 6u8;
    let avail = buf.len() - pos;
    assert(rest[0] == b0);
    if tag == 0 {
        Ok((((b0 & 0x3f) as u64), pos + 1))
    } else if tag == 1 {
        if avail < 2 {
            return Err(DecodeError::More);
        }
        assert(rest[1] == buf@[pos + 1]);
        let v = (((b0 & 0x3f) as u64) << 8u64) | (buf[pos + 1] as u64);
        Ok((v, pos + 2))
    } else if tag == 2 {
        if avail < 4 {
            return Err(DecodeError::More);
        }
        assert(rest[1] == buf@[pos + 1] && rest[2] == buf@[pos + 2] && rest[3] == buf@[pos + 3]);
        let v = (((b0 & 0x3f) as u64) << 24u64) | ((buf[pos + 1] as u64) << 16u64) | ((buf[pos
            + 2] as u64) << 8u64) | (buf[pos + 3] as u64);
        Ok((v, pos + 4))
    } else {
        if avail < 8 {
            return Err(DecodeError::More);
        }
        assert(rest[1] == buf@[pos + 1] && rest[2] == buf@[pos + 2] && rest[3] == buf@[pos + 3]);
        assert(rest[4] == buf@[pos + 4] && rest[5] == buf@[pos + 5] && rest[6] == buf@[pos + 6]
            && rest[7] == buf@[pos + 7]);
        let v = (((b0 & 0x3f) as u64) << 56u64) | ((buf[pos + 1] as u64) << 48u64) | ((buf[pos
            + 2] as u64) << 40u64) | ((buf[pos + 3] as u64) << 32u64) | ((buf[pos + 4] as u64)
            << 24u64) | ((buf[pos + 5] as u64) << 16u64) | ((buf[pos + 6] as u64) << 8u64) | (
        buf[pos + 7] as u64);
        Ok((v, pos + 8))
    }
}


/// Decoding the canonical encoding of `v`, followed by anything, gives back `v`
/// and consumes exactly the encoding.
pub proof fn lemma_varint_decode_encode(v: u64, rest: Seq<u8>)
    requires
        v <= MAX_VARINT,
    ensures
        varint_decode(varint_encoding(v) + rest) == Some((v, varint_size_spec(v))),
        varint_parse(varint_encoding(v) + rest) == Ok::<(u64, nat), DecodeError>((v, varint_size_spec(v))),
        varint_encoding(v).len() == varint_size_spec(v),
{
    reveal(varint_encoding);
    reveal(varint_decode);
    let b = varint_encoding(v) + rest;
    if v < 64 {
        assert(b[0] == v as u8);
        assert(v < 64 ==> (v as u8) >> 6u8 == 0 && ((v as u8) & 0x3f) as u64 == v) by (bit_vector);
    } else if v < 16384 {
        assert(b[0] == (0x40u64 | (v >> 8u64)) as u8 && b[1] == byte_of(v, 0));
        assert(64 <= v < 16384 ==> ((0x40u64 | (v >> 8u64)) as u8) >> 6u8 == 1 && ((((0x40u64 | (v
            >> 8u64)) as u8) & 0x3f) as u64) << 8u64 | (((v >> 0u64) & 0xff) as u8) as u64 == v)
            by (bit_vector);
    } else if v < 1073741824 {
        assert(b[0] == (0x80u64 | (v >> 24u64)) as u8 && b[1] == byte_of(v, 16) && b[2] == byte_of(
            v,
            8,
        ) && b[3] == byte_of(v, 0));
        assert(16384 <= v < 1073741824 ==> ((0x80u64 | (v >> 24u64)) as u8) >> 6u8 == 2 && ((((0x80u64
            | (v >> 24u64)) as u8) & 0x3f) as u64) << 24u64 | ((((v >> 16u64) & 0xff) as u8) as u64)
            << 16u64 | ((((v >> 8u64) & 0xff) as u8) as u64) << 8u64 | (((v >> 0u64) & 0xff) as u8)
            as u64 == v) by (bit_vector);
    } else {
        assert(b[0] == (0xc0u64 | (v >> 56u64)) as u8 && b[1] == byte_of(v, 48) && b[2] == byte_of(
            v,
            40,
        ) && b[3] == byte_of(v, 32));
        assert(b[4] == byte_of(v, 24) && b[5] == byte_of(v, 16) && b[6] == byte_of(v, 8) && b[7]
            == byte_of(v, 0));
        assert(1073741824 <= v <= 4611686018427387903u64 ==> ((0xc0u64 | (v >> 56u64)) as u8) >> 6u8
            == 3 && ((((0xc0u64 | (v >> 56u64)) as u8) & 0x3f) as u64) << 56u64 | ((((v >> 48u64)
            & 0xff) as u8) as u64) << 48u64 | ((((v >> 40u64) & 0xff) as u8) as u64) << 40u64 | ((((v
            >> 32u64) & 0xff) as u8) as u64) << 32u64 | ((((v >> 24u64) & 0xff) as u8) as u64)
            << 24u64 | ((((v >> 16u64) & 0xff) as u8) as u64) << 16u64 | ((((v >> 8u64) & 0xff)
            as u8) as u64) << 8u64 | (((v >> 0u64) & 0xff) as u8) as u64 == v) by (bit_vector);
    }
}

/// Every decoded value fits in 62 bits.
pub proof fn lemma_varint_decode_bounded(b: Seq<u8>)
    requires
        varint_decode(b).is_some(),
    ensures
        varint_decode(b).unwrap().0 <= MAX_VARINT,
        1 <= varint_decode(b).unwrap().1 <= 8,
        varint_decode(b).unwrap().1 <= b.len(),
{
    reveal(varint_decode);
    let b0 = b[0];
    let n = varint_len_of_first(b0);
    if n == 1 {
        assert((b0 & 0x3f) as u64 <= 4611686018427387903u64) by (bit_vector);
    } else if n == 2 {
        let b1 = b[1];
        assert(((b0 & 0x3f) as u64) << 8u64 | (b1 as u64) <= 4611686018427387903u64) by (bit_vector);
    } else if n == 4 {
        let (b1, b2, b3) = (b[1], b[2], b[3]);
        assert(((b0 & 0x3f) as u64) << 24u64 | (b1 as u64) << 16u64 | (b2 as u64) << 8u64 | (
        b3 as u64) <= 4611686018427387903u64) by (bit_vector);
    } else {
        let (b1, b2, b3, b4, b5, b6, b7) = (b[1], b[2], b[3], b[4], b[5], b[6], b[7]);
        assert(((b0 & 0x3f) as u64) << 56u64 | (b1 as u64) << 48u64 | (b2 as u64) << 40u64 | (
        b3 as u64) << 32u64 | (b4 as u64) << 24u64 | (b5 as u64) << 16u64 | (b6 as u64) << 8u64
            | (b7 as u64) <= 4611686018427387903u64) by (bit_vector);
    }
}

/// A decoded value never needs more bytes than it occupied.
pub proof fn lemma_varint_size_le(b: Seq<u8>)
    requires
        varint_decode(b).is_some(),
    ensures
        varint_size_spec(varint_decode(b).unwrap().0) <= varint_decode(b).unwrap().1,
{
    reveal(varint_decode);
    let b0 = b[0];
    let n = varint_len_of_first(b0);
    if n == 1 {
        assert(((b0 & 0x3f) as u64) < 64) by (bit_vector);
    } else if n == 2 {
        let b1 = b[1];
        assert(((b0 & 0x3f) as u64) << 8u64 | (b1 as u64) < 16384) by (bit_vector);
    } else if n == 4 {
        let (b1, b2, b3) = (b[1], b[2], b[3]);
        assert(((b0 & 0x3f) as u64) << 24u64 | (b1 as u64) << 16u64 | (b2 as u64) << 8u64 | (b3 as u64)
            < 1073741824) by (bit_vector);
    }
}

/// Re-encoding a decoded value reproduces the bytes it was read from, whenever
/// those bytes used the shortest form.
pub proof fn lemma_varint_encode_decode(b: Seq<u8>)
    requires
        varint_decode(b).is_some(),
        varint_size_spec(varint_decode(b).unwrap().0) == varint_decode(b).unwrap().1,
    ensures
        varint_encoding(varint_decode(b).unwrap().0) == b.subrange(0, varint_decode(b).unwrap().1 as int),
{
    reveal(varint_encoding);
    reveal(varint_decode);
    let b0 = b[0];
    let n = varint_len_of_first(b0);
    let v = varint_value(b);
    let e = varint_encoding(v);
    if n == 1 {
        assert(b0 >> 6u8 == 0 ==> (((b0 & 0x3f) as u64) as u8) == b0) by (bit_vector);
        assert(e =~= b.subrange(0, 1));
    } else if n == 2 {
        let b1 = b[1];
        assert(b0 >> 6u8 == 1 ==> ((0x40u64 | ((((b0 & 0x3f) as u64) << 8u64 | (b1 as u64)) >> 8u64))
            as u8) == b0 && ((((((b0 & 0x3f) as u64) << 8u64 | (b1 as u64)) >> 0u64) & 0xff) as u8)
            == b1) by (bit_vector);
        assert(e =~= b.subrange(0, 2));
    } else if n == 4 {
        let (b1, b2, b3) = (b[1], b[2], b[3]);
        let w = ((b0 & 0x3f) as u64) << 24u64 | (b1 as u64) << 16u64 | (b2 as u64) << 8u64 | (
        b3 as u64);
        assert(w == v);
        assert(b0 >> 6u8 == 2 ==> ((0x80u64 | (w >> 24u64)) as u8) == b0) by (bit_vector)
            requires
                w == ((b0 & 0x3f) as u64) << 24u64 | (b1 as u64) << 16u64 | (b2 as u64) << 8u64 | (
                b3 as u64),
        ;
        assert(((w >> 16u64) & 0xff) as u8 == b1 && ((w >> 8u64) & 0xff) as u8 == b2 && ((w
            >> 0u64) & 0xff) as u8 == b3) by (bit_vector)
            requires
                w == ((b0 & 0x3f) as u64) << 24u64 | (b1 as u64) << 16u64 | (b2 as u64) << 8u64 | (
                b3 as u64),
        ;
        assert(e =~= b.subrange(0, 4));
    } else {
        let (b1, b2, b3, b4, b5, b6, b7) = (b[1], b[2], b[3], b[4], b[5], b[6], b[7]);
        let w = ((b0 & 0x3f) as u64) << 56u64 | (b1 as u64) << 48u64 | (b2 as u64) << 40u64 | (
        b3 as u64) << 32u64 | (b4 as u64) << 24u64 | (b5 as u64) << 16u64 | (b6 as u64) << 8u64
            | (b7 as u64);
        assert(w == v);
        assert(b0 >> 6u8 != 0 && b0 >> 6u8 != 1 && b0 >> 6u8 != 2 ==> b0 >> 6u8 == 3) by (bit_vector);
        assert(b0 >> 6u8 == 3 ==> ((0xc0u64 | (w >> 56u64)) as u8) == b0) by (bit_vector)
            requires
                w == ((b0 & 0x3f) as u64) << 56u64 | (b1 as u64) << 48u64 | (b2 as u64) << 40u64
                    | (b3 as u64) << 32u64 | (b4 as u64) << 24u64 | (b5 as u64) << 16u64 | (b6
                    as u64) << 8u64 | (b7 as u64),
        ;
        assert(((w >> 48u64) & 0xff) as u8 == b1 && ((w >> 40u64) & 0xff) as u8 == b2 && ((w
            >> 32u64) & 0xff) as u8 == b3 && ((w >> 24u64) & 0xff) as u8 == b4) by (bit_vector)
            requires
                w == ((b0 & 0x3f) as u64) << 56u64 | (b1 as u64) << 48u64 | (b2 as u64) << 40u64
                    | (b3 as u64) << 32u64 | (b4 as u64) << 24u64 | (b5 as u64) << 16u64 | (b6
                    as u64) << 8u64 | (b7 as u64),
        ;
        assert(((w >> 16u64) & 0xff) as u8 == b5 && ((w >> 8u64) & 0xff) as u8 == b6 && ((w
            >> 0u64) & 0xff) as u8 == b7) by (bit_vector)
            requires
                w == ((b0 & 0x3f) as u64) << 56u64 | (b1 as u64) << 48u64 | (b2 as u64) << 40u64
                    | (b3 as u64) << 32u64 | (b4 as u64) << 24u64 | (b5 as u64) << 16u64 | (b6
                    as u64) << 8u64 | (b7 as u64),
        ;
        assert(e =~= b.subrange(0, 8));
    }
}

} // verus!
