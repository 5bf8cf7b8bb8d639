//! QUIC variable-length integer encoding.
//!
//! The two most significant bits of the first byte encode the integer length:
//!
//! | 2 MSB | Length | Usable bits | Max value               |
//! |-------|--------|-------------|-------------------------|
//! | 00    | 1      | 6           | 63                      |
//! | 01    | 2      | 14          | 16383                   |
//! | 10    | 4      | 30          | 1073741823              |
//! | 11    | 8      | 62          | 4611686018427387903     |

use vstd::prelude::*;

use crate::wire::{
    be_bytes, be_value, lemma_be_bytes_len, lemma_be_bytes_of_value, lemma_be_value_eight,
    lemma_be_value_of_bytes, lemma_be_value_small, lemma_radix_values,
};

verus! {

/// The QUIC variable-length integer type (u64 with max 2^62 - 1).
pub type VarInt = u64;

/// Maximum value representable by a QUIC varint (2^62 - 1).
pub const VARINT_MAX: VarInt = 4611686018427387903;

#[derive(Debug, Clone, Copy, PartialEq, Eq)]
pub enum VarIntError {
    /// The buffer is too short.
    BufferTooShort { needed: usize, actual: usize },
    /// The value exceeds [`VARINT_MAX`].
    ValueTooLarge { value: u64 },
}

/// The shortest of the four lengths in which `v` fits.
pub open spec fn varint_len(v: u64) -> nat {
    if v <= 63 {
        1
    } else if v <= 16383 {
        2
    } else if v <= 1073741823 {
        4
    } else {
        8
    }
}

/// What the two length bits add to the first byte's value, for an encoding of
/// `n` bytes read as one big-endian number.
pub open spec fn length_mark(n: nat) -> nat {
    if n == 1 {
        0
    } else if n == 2 {
        0x4000
    } else if n == 4 {
        0x8000_0000
    } else {
        0xc000_0000_0000_0000
    }
}

/// The encoding of `v`: the length bits and then `v`, big-endian, in the
/// fewest bytes.
pub open spec fn varint_bytes(v: u64) -> Seq<u8> {
    be_bytes(v as nat + length_mark(varint_len(v)), varint_len(v))
}

/// The length that a first byte announces.
pub open spec fn announced_len(first: u8) -> nat {
    if first < 0x40 {
        1
    } else if first < 0x80 {
        2
    } else if first < 0xc0 {
        4
    } else {
        8
    }
}

/// What decoding the front of `s` yields: the value and its encoded length.
pub open spec fn varint_at(s: Seq<u8>) -> Result<(u64, nat), VarIntError> {
    if s.len() == 0 {
        Err(VarIntError::BufferTooShort { needed: 1, actual: 0 })
    } else {
        let n = announced_len(s[0]);
        if s.len() < n {
            Err(VarIntError::BufferTooShort { needed: n as usize, actual: s.len() as usize })
        } else {
            Ok(((be_value(s.take(n as int)) - length_mark(n)) as u64, n))
        }
    }
}

/// Return the number of bytes needed to encode `v` as a QUIC varint.
pub fn encoded_len(v: VarInt) -> (n: usize)
    ensures
        n == varint_len(v),
{
    if v <= 63 {
        1
    } else if v <= 16383 {
        2
    } else if v <= 1073741823 {
        4
    } else {
        8
    }
}

/// The bytes that shifting and marking produce are the encoding.
proof fn lemma_written_bytes(v: u64, s: Seq<u8>)
    requires
        v <= VARINT_MAX,
        s.len() == varint_len(v),
        s.len() == 1 ==> s[0] == v as u8,
        s.len() == 2 ==> {
            &&& s[0] == 0x40u8 | ((v >> 8) as u8)
            &&& s[1] == (v & 0xff) as u8
        },
        s.len() == 4 ==> {
            &&& s[0] == 0x80u8 | ((v >> 24) as u8)
            &&& s[1] == ((v >> 16) & 0xff) as u8
            &&& s[2] == ((v >> 8) & 0xff) as u8
            &&& s[3] == (v & 0xff) as u8
        },
        s.len() == 8 ==> {
            &&& s[0] == 0xc0u8 | ((v >> 56) as u8)
            &&& s[1] == ((v >> 48) & 0xff) as u8
            &&& s[2] == ((v >> 40) & 0xff) as u8
            &&& s[3] == ((v >> 32) & 0xff) as u8
            &&& s[4] == ((v >> 24) & 0xff) as u8
            &&& s[5] == ((v >> 16) & 0xff) as u8
            &&& s[6] == ((v >> 8) & 0xff) as u8
            &&& s[7] == (v & 0xff) as u8
        },
    ensures
        s == varint_bytes(v),
{
    if s.len() == 1 {
        assert(v <= 63 ==> (v as u8) == v) by (bit_vector);
        lemma_be_value_small(s);
    } else if s.len() == 2 {
        assert(v <= 16383 ==> 0x100 * (0x40u8 | ((v >> 8) as u8)) + (v & 0xff) as u8 == 0x4000 + v)
            by (bit_vector);
        lemma_be_value_small(s);
    } else if s.len() == 4 {
        assert(v <= 1073741823 ==> 0x100_0000 * (0x80u8 | ((v >> 24) as u8)) + 0x1_0000 * (((v
            >> 16) & 0xff) as u8) + 0x100 * (((v >> 8) & 0xff) as u8) + (v & 0xff) as u8
            == 0x8000_0000 + v) by (bit_vector);
        lemma_be_value_small(s);
    } else {
        assert(v <= 4611686018427387903 ==> 0x100_0000_0000_0000 * (0xc0u8 | ((v >> 56) as u8))
            + 0x1_0000_0000_0000 * (((v >> 48) & 0xff) as u8) + 0x100_0000_0000 * (((v >> 40)
            & 0xff) as u8) + 0x1_0000_0000 * (((v >> 32) & 0xff) as u8) + 0x100_0000 * (((v >> 24)
            & 0xff) as u8) + 0x1_0000 * (((v >> 16) & 0xff) as u8) + 0x100 * (((v >> 8)
            & 0xff) as u8) + (v & 0xff) as u8 == 0xc000_0000_0000_0000 + v) by (bit_vector);
        lemma_be_value_eight(s);
    }
    assert(be_value(s) == v as nat + length_mark(s.len()));
    lemma_be_bytes_of_value(s);
}

/// Write `v` to `buf` as a QUIC varint. Returns bytes written.
pub fn encode(v: VarInt, buf: &mut [u8]) -> (r: Result<usize, VarIntError>)
    ensures
        v > VARINT_MAX ==> r == Err::<usize, _>(VarIntError::ValueTooLarge { value: v }),
        v <= VARINT_MAX && old(buf)@.len() < varint_len(v) ==> r == Err::<usize, _>(
            VarIntError::BufferTooShort {
                needed: varint_len(v) as usize,
                actual: old(buf)@.len() as usize,
            },
        ),
        v <= VARINT_MAX && varint_len(v) <= old(buf)@.len() ==> {
            &&& r == Ok::<_, VarIntError>(varint_len(v) as usize)
            &&& final(buf)@ == varint_bytes(v) + old(buf)@.skip(varint_len(v) as int)
        },
        r is Err ==> final(buf)@ == old(buf)@,
{
    if v > VARINT_MAX {
        return Err(VarIntError::ValueTooLarge { value: v });
    }
    let len: usize = encoded_len(v);
    if buf.len() < len {
        return Err(VarIntError::BufferTooShort { needed: len, actual: buf.len() });
    }
    let ghost before = buf@;
    if len == 1 {
        buf[0] = v as u8;
    } else if len == 2 {
        buf[0] = 0x40 | ((v >> 8) as u8);
        buf[1] = (v & 0xff) as u8;
    } else if len == 4 {
        buf[0] = 0x80 | ((v >> 24) as u8);
        buf[1] = ((v >> 16) & 0xff) as u8;
        buf[2] = ((v >> 8) & 0xff) as u8;
        buf[3] = (v & 0xff) as u8;
    } else {
        buf[0] = 0xc0 | ((v >> 56) as u8);
        buf[1] = ((v >> 48) & 0xff) as u8;
        buf[2] = ((v >> 40) & 0xff) as u8;
        buf[3] = ((v >> 32) & 0xff) as u8;
        buf[4] = ((v >> 24) & 0xff) as u8;
        buf[5] = ((v >> 16) & 0xff) as u8;
        buf[6] = ((v >> 8) & 0xff) as u8;
        buf[7] = (v & 0xff) as u8;
    }
    proof {
        let s = buf@.take(len as int);
        lemma_written_bytes(v, s);
        assert(buf@ =~= s + before.skip(len as int));
    }
    Ok(len)
}

/// Read a varint from `buf`. Returns the value and number of bytes consumed.
pub fn decode(buf: &[u8]) -> (r: Result<(VarInt, usize), VarIntError>)
    ensures
        match varint_at(buf@) {
            Ok((v, n)) => r == Ok::<(VarInt, usize), VarIntError>((v, n as usize)) && n <= 8,
            Err(e) => r == Err::<(VarInt, usize), _>(e),
        },
{
    if buf.len() == 0 {
        return Err(VarIntError::BufferTooShort { needed: 1, actual: 0 });
    }
    let first: u8 = buf[0];
    let code: u8 = first >> 6;
    proof {
        assert(first >> 6 == first / 0x40) by (bit_vector);
        assert((first as u64) & 0x3f == (first as u64) % 0x40) by (bit_vector);
    }
    if code == 0 {
        proof {
            lemma_be_value_small(buf@.take(1));
        }
        return Ok((first as u64, 1));
    }
    if code == 1 {
        if buf.len() < 2 {
            return Err(VarIntError::BufferTooShort { needed: 2, actual: buf.len() });
        }
        let b1: u64 = buf[1] as u64;
        let top: u64 = first as u64 & 0x3f;
        let v: u64 = (top << 8) | b1;
        proof {
            assert(top < 0x40 && b1 < 0x100 ==> ((top << 8) | b1) == 0x100 * top + b1)
                by (bit_vector);
            lemma_be_value_small(buf@.take(2));
        }
        return Ok((v, 2));
    }
    if code == 2 {
        if buf.len() < 4 {
            return Err(VarIntError::BufferTooShort { needed: 4, actual: buf.len() });
        }
        let b1: u64 = buf[1] as u64;
        let b2: u64 = buf[2] as u64;
        let b3: u64 = buf[3] as u64;
        let top: u64 = first as u64 & 0x3f;
        let v: u64 = (top << 24) | (b1 << 16) | (b2 << 8) | b3;
        proof {
            assert(top < 0x40 && b1 < 0x100 && b2 < 0x100 && b3 < 0x100 ==> ((top << 24) | (b1
                << 16) | (b2 << 8) | b3) == 0x100_0000 * top + 0x1_0000 * b1 + 0x100 * b2 + b3)
                by (bit_vector);
            lemma_be_value_small(buf@.take(4));
        }
        return Ok((v, 4));
    }
    if buf.len() < 8 {
        return Err(VarIntError::BufferTooShort { needed: 8, actual: buf.len() });
    }
    let b1: u64 = buf[1] as u64;
    let b2: u64 = buf[2] as u64;
    let b3: u64 = buf[3] as u64;
    let b4: u64 = buf[4] as u64;
    let b5: u64 = buf[5] as u64;
    let b6: u64 = buf[6] as u64;
    let b7: u64 = buf[7] as u64;
    let top: u64 = first as u64 & 0x3f;
    let v: u64 = (top << 56) | (b1 << 48) | (b2 << 40) | (b3 << 32) | (b4 << 24) | (b5 << 16) | (b6
        << 8) | b7;
    proof {
        assert(top < 0x40 && b1 < 0x100 && b2 < 0x100 && b3 < 0x100 && b4 < 0x100 && b5 < 0x100
            && b6 < 0x100 && b7 < 0x100 ==> ((top << 56) | (b1 << 48) | (b2 << 40) | (b3 << 32) | (
        b4 << 24) | (b5 << 16) | (b6 << 8) | b7) == 0x100_0000_0000_0000 * top + 0x1_0000_0000_0000
            * b1 + 0x100_0000_0000 * b2 + 0x1_0000_0000 * b3 + 0x100_0000 * b4 + 0x1_0000 * b5
            + 0x100 * b6 + b7) by (bit_vector);
        lemma_be_value_eight(buf@.take(8));
    }
    Ok((v, 8))
}

/// Append a varint to a byte vector.
pub fn put_varint(buf: &mut Vec<u8>, v: VarInt) -> (r: Result<(), VarIntError>)
    ensures
        v > VARINT_MAX ==> {
            &&& r == Err::<(), _>(VarIntError::ValueTooLarge { value: v })
            &&& final(buf)@ == old(buf)@
        },
        v <= VARINT_MAX ==> {
            &&& r == Ok::<(), VarIntError>(())
            &&& final(buf)@ == old(buf)@ + varint_bytes(v)
        },
{
    if v > VARINT_MAX {
        return Err(VarIntError::ValueTooLarge { value: v });
    }
    let len: usize = encoded_len(v);
    let mut tmp: [u8; 8] = [0u8; 8];
    let written = encode(v, &mut tmp);
    match written {
        Ok(_) => {},
        Err(e) => {
            return Err(e);
        },
    }
    proof {
        lemma_be_bytes_len(v as nat + length_mark(varint_len(v)), varint_len(v));
        assert(tmp@.take(len as int) =~= varint_bytes(v));
    }
    buf.extend_from_slice(vstd::slice::slice_subrange(&tmp, 0, len));
    Ok(())
}

/// An encoding takes as many bytes as [`encoded_len`] says, at least one.
pub proof fn lemma_varint_bytes_len(v: u64)
    ensures
        varint_bytes(v).len() == varint_len(v),
        1 <= varint_len(v) <= 8,
{
    lemma_be_bytes_len(v as nat + length_mark(varint_len(v)), varint_len(v));
}

/// Law: decoding what was encoded gives the value and the length back,
/// whatever follows it.
pub proof fn law_varint_round_trip(v: u64, rest: Seq<u8>)
    requires
        v <= VARINT_MAX,
    ensures
        varint_at(varint_bytes(v) + rest) == Ok::<(u64, nat), VarIntError>((v, varint_len(v))),
        varint_bytes(v).len() == varint_len(v),
{
    let n = varint_len(v);
    let s = varint_bytes(v);
    let x = v as nat + length_mark(n);
    lemma_be_value_of_bytes(x, n);
    lemma_radix_values();
    assert(be_value(s) == x) by {
        vstd::arithmetic::div_mod::lemma_small_mod(x, crate::wire::radix(n));
    }
    if n == 8 {
        lemma_be_value_eight(s);
    } else {
        lemma_be_value_small(s);
    }
    assert(announced_len(s[0]) == n);
    assert((s + rest).take(n as int) =~= s);
}

/// Law: a decoded value is at most [`VARINT_MAX`], took no more bytes than
/// there were, and its shortest encoding is no longer than the one read.
pub proof fn law_varint_at_bounds(s: Seq<u8>)
    ensures
        varint_at(s) matches Ok((v, n)) ==> {
            &&& v <= VARINT_MAX
            &&& 1 <= n <= 8
            &&& n <= s.len()
            &&& varint_len(v) <= n
        },
{
    if varint_at(s) is Ok {
        let n = announced_len(s[0]);
        let t = s.take(n as int);
        if n == 8 {
            lemma_be_value_eight(t);
        } else {
            lemma_be_value_small(t);
        }
    }
}

/// Law: an encoding of the shortest length is the one that [`encode`] writes.
pub proof fn law_minimal_encoding_unique(s: Seq<u8>)
    ensures
        varint_at(s) matches Ok((v, n)) ==> (n == varint_len(v) ==> s.take(n as int)
            == varint_bytes(v)),
{
    if let Ok((v, n)) = varint_at(s) {
        let t = s.take(n as int);
        law_varint_at_bounds(s);
        if n == 8 {
            lemma_be_value_eight(t);
        } else {
            lemma_be_value_small(t);
        }
        lemma_be_bytes_of_value(t);
    }
}

/// Law: decoding reads nothing beyond the bytes that it consumes.
pub proof fn law_varint_no_lookahead(s: Seq<u8>, rest: Seq<u8>)
    ensures
        varint_at(s) matches Ok((v, n)) ==> varint_at(s.take(n as int) + rest) == Ok::<
            (u64, nat),
            VarIntError,
        >((v, n)),
{
    if let Ok((v, n)) = varint_at(s) {
        let t = s.take(n as int) + rest;
        assert(t[0] == s[0]);
        assert(t.take(n as int) =~= s.take(n as int));
    }
}

/// Law: decoding needs every byte that it consumes.
pub proof fn law_varint_needs_all(s: Seq<u8>, k: int)
    requires
        varint_at(s) matches Ok((v, n)) && 0 <= k < n,
    ensures
        varint_at(s.take(k)) is Err,
{
    law_varint_at_bounds(s);
}

/// Law: what each byte of an encoding says. The top two bits of the first byte
/// tell the length, 1, 2, 4 or 8, and all the other bits spell the value, most
/// significant first.
pub proof fn law_varint_value(s: Seq<u8>)
    ensures
        s.len() > 0 && s[0] < 0x40 ==> varint_at(s) == Ok::<(u64, nat), VarIntError>(
            (s[0] as u64, 1),
        ),
        s.len() >= 2 && 0x40 <= s[0] < 0x80 ==> varint_at(s) == Ok::<(u64, nat), VarIntError>(
            ((256 * (s[0] - 0x40) + s[1]) as u64, 2),
        ),
        s.len() >= 4 && 0x80 <= s[0] < 0xc0 ==> varint_at(s) == Ok::<(u64, nat), VarIntError>(
            (
                (0x100_0000 * (s[0] - 0x80) + 0x1_0000 * s[1] + 0x100 * s[2] + s[3]) as u64,
                4,
            ),
        ),
        s.len() >= 8 && 0xc0 <= s[0] ==> varint_at(s) == Ok::<(u64, nat), VarIntError>(
            (
                (0x100_0000_0000_0000 * (s[0] - 0xc0) + 0x1_0000_0000_0000 * s[1]
                    + 0x100_0000_0000 * s[2] + 0x1_0000_0000 * s[3] + 0x100_0000 * s[4] + 0x1_0000
                    * s[5] + 0x100 * s[6] + s[7]) as u64,
                8,
            ),
        ),
        s.len() == 0 ==> varint_at(s) == Err::<(u64, nat), _>(
            VarIntError::BufferTooShort { needed: 1, actual: 0 },
        ),
        0 < s.len() < 2 && 0x40 <= s[0] < 0x80 ==> varint_at(s) == Err::<(u64, nat), _>(
            VarIntError::BufferTooShort { needed: 2, actual: s.len() as usize },
        ),
        0 < s.len() < 4 && 0x80 <= s[0] < 0xc0 ==> varint_at(s) == Err::<(u64, nat), _>(
            VarIntError::BufferTooShort { needed: 4, actual: s.len() as usize },
        ),
        0 < s.len() < 8 && 0xc0 <= s[0] ==> varint_at(s) == Err::<(u64, nat), _>(
            VarIntError::BufferTooShort { needed: 8, actual: s.len() as usize },
        ),
{
    lemma_be_value_small(s.take(1));
    lemma_be_value_small(s.take(2));
    lemma_be_value_small(s.take(4));
    if s.len() >= 8 {
        lemma_be_value_eight(s.take(8));
    }
}

/// Law: a value is written in the shortest of the lengths 1, 2, 4 and 8 that it
/// fits in, for 6, 14, 30 and 62 bits, and decodes to itself; 62 bits are the
/// most that can be written.
pub proof fn law_varint_written(v: u64, rest: Seq<u8>)
    ensures
        VARINT_MAX == 0x3fff_ffff_ffff_ffff,
        v <= 0x3fff_ffff_ffff_ffff ==> {
            let b = varint_bytes(v);
            &&& b.len() == varint_len(v)
            &&& varint_at(b + rest) == Ok::<(u64, nat), VarIntError>((v, b.len()))
            &&& b.len() == if v < 0x40 {
                1nat
            } else if v < 0x4000 {
                2
            } else if v < 0x4000_0000 {
                4
            } else {
                8
            }
        },
{
    if v <= VARINT_MAX {
        law_varint_round_trip(v, rest);
        lemma_be_bytes_len(v as nat + length_mark(varint_len(v)), varint_len(v));
    }
}

/// Law: a value that was encoded decodes to itself, in as many bytes. Every value
/// of up to 62 bits can be encoded, where there is room for it.
pub proof fn law_encode_decode(
    v: VarInt,
    buf: &mut [u8],
    e: Result<usize, VarIntError>,
    read: &[u8],
    d: Result<(VarInt, usize), VarIntError>,
)
    requires
        call_ensures(encode, (v, buf), e),
        call_ensures(decode, (read,), d),
    ensures
        v <= 0x3fff_ffff_ffff_ffff && old(buf)@.len() >= 8 ==> e is Ok,
        v > 0x3fff_ffff_ffff_ffff ==> e is Err,
        e is Err ==> final(buf)@ == old(buf)@,
        e matches Ok(n) ==> (read@ == final(buf)@ ==> d == Ok::<_, VarIntError>((v, n))),
{
    law_varint_written(v, old(buf)@.skip(varint_len(v) as int));
}

} // verus!
