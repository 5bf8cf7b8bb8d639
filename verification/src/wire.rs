//! Big-endian integers on the wire.
//!
//! Every integer in a QUIC packet is written most significant byte first.
//! The two spec functions [`be_value`] and [`be_bytes`] say what that means,
//! and the rest of the crate states its formats over them.

use vstd::prelude::*;

verus! {

/// `256` to the power of `n`: how many values fit in `n` bytes.
pub open spec fn radix(n: nat) -> nat
    decreases n,
{
    if n == 0 {
        1
    } else {
        256 * radix((n - 1) as nat)
    }
}

/// The number that the bytes of `s` spell, most significant byte first.
pub open spec fn be_value(s: Seq<u8>) -> nat
    decreases s.len(),
{
    if s.len() == 0 {
        0
    } else {
        256 * be_value(s.drop_last()) + s.last() as nat
    }
}

/// The `n` low-order bytes of `v`, most significant byte first.
pub open spec fn be_bytes(v: nat, n: nat) -> Seq<u8>
    decreases n,
{
    if n == 0 {
        Seq::empty()
    } else {
        be_bytes(v / 256, (n - 1) as nat).push((v % 256) as u8)
    }
}

/// `be_bytes` yields exactly as many bytes as it was asked for.
pub proof fn lemma_be_bytes_len(v: nat, n: nat)
    ensures
        be_bytes(v, n).len() == n,
    decreases n,
{
    if n > 0 {
        lemma_be_bytes_len(v / 256, (n - 1) as nat);
    }
}

/// Reading back `n` written bytes gives the value modulo `256^n`.
pub proof fn lemma_be_value_of_bytes(v: nat, n: nat)
    ensures
        be_bytes(v, n).len() == n,
        be_value(be_bytes(v, n)) == v % radix(n),
        radix(n) > 0,
    decreases n,
{
    if n > 0 {
        let m = (n - 1) as nat;
        lemma_be_value_of_bytes(v / 256, m);
        let b = be_bytes(v, n);
        assert(b.drop_last() =~= be_bytes(v / 256, m));
        let r = radix(m);
        let q = v / 256;
        assert(v % (256 * r) == 256 * (q % r) + v % 256) by (nonlinear_arith)
            requires
                r > 0,
                q == v / 256,
        {
            let k = q / r;
            assert(q == r * k + q % r);
            assert(v == 256 * q + v % 256);
            assert(v == (256 * r) * k + (256 * (q % r) + v % 256));
            assert(0 <= 256 * (q % r) + v % 256 < 256 * r);
            vstd::arithmetic::div_mod::lemma_fundamental_div_mod_converse(
                v as int,
                (256 * r) as int,
                k as int,
                (256 * (q % r) + v % 256) as int,
            );
        }
    } else {
        assert(v % 1 == 0);
    }
}

/// Writing the value of a byte string at its own length gives it back.
pub proof fn lemma_be_bytes_of_value(s: Seq<u8>)
    ensures
        be_bytes(be_value(s), s.len()) == s,
        be_value(s) < radix(s.len()),
    decreases s.len(),
{
    if s.len() > 0 {
        lemma_be_bytes_of_value(s.drop_last());
        let v = be_value(s);
        assert(v / 256 == be_value(s.drop_last()));
        assert(v % 256 == s.last());
        assert(be_bytes(v, s.len()) =~= s);
    }
}

/// The powers of 256 that the formats use.
pub proof fn lemma_radix_values()
    ensures
        radix(0) == 1,
        radix(1) == 0x100,
        radix(2) == 0x1_0000,
        radix(3) == 0x100_0000,
        radix(4) == 0x1_0000_0000,
        radix(8) == 0x1_0000_0000_0000_0000,
{
    reveal_with_fuel(radix, 9);
}

/// `be_value` of up to four bytes, written out.
pub proof fn lemma_be_value_small(s: Seq<u8>)
    ensures
        s.len() == 1 ==> be_value(s) == s[0],
        s.len() == 2 ==> be_value(s) == 0x100 * s[0] + s[1],
        s.len() == 3 ==> be_value(s) == 0x1_0000 * s[0] + 0x100 * s[1] + s[2],
        s.len() == 4 ==> be_value(s) == 0x100_0000 * s[0] + 0x1_0000 * s[1] + 0x100 * s[2] + s[3],
{
    reveal_with_fuel(be_value, 5);
}

/// `be_value` of eight bytes, written out.
pub proof fn lemma_be_value_eight(s: Seq<u8>)
    requires
        s.len() == 8,
    ensures
        be_value(s) == 0x100_0000_0000_0000 * s[0] + 0x1_0000_0000_0000 * s[1] + 0x100_0000_0000
            * s[2] + 0x1_0000_0000 * s[3] + 0x100_0000 * s[4] + 0x1_0000 * s[5] + 0x100 * s[6]
            + s[7],
{
    reveal_with_fuel(be_value, 9);
}

/// The bytes of a 64-bit number that shifting and masking pick out.
pub proof fn lemma_shift_bytes(v: u64)
    ensures
        v & 0xff == v % 0x100,
        (v >> 8) & 0xff == (v / 0x100) % 0x100,
        (v >> 16) & 0xff == (v / 0x1_0000) % 0x100,
        (v >> 24) & 0xff == (v / 0x100_0000) % 0x100,
        (v >> 32) & 0xff == (v / 0x1_0000_0000) % 0x100,
        (v >> 40) & 0xff == (v / 0x100_0000_0000) % 0x100,
        (v >> 48) & 0xff == (v / 0x1_0000_0000_0000) % 0x100,
        (v >> 56) & 0xff == (v / 0x100_0000_0000_0000) % 0x100,
        v >> 8 == v / 0x100,
        v >> 16 == v / 0x1_0000,
        v >> 24 == v / 0x100_0000,
        v >> 56 == v / 0x100_0000_0000_0000,
        v as u8 == v % 0x100,
        (v >> 8) as u8 == (v / 0x100) % 0x100,
        (v >> 16) as u8 == (v / 0x1_0000) % 0x100,
        (v >> 24) as u8 == (v / 0x100_0000) % 0x100,
{
    assert({
        &&& v & 0xff == v % 0x100
        &&& (v >> 8) & 0xff == (v / 0x100) % 0x100
        &&& (v >> 16) & 0xff == (v / 0x1_0000) % 0x100
        &&& (v >> 24) & 0xff == (v / 0x100_0000) % 0x100
        &&& (v >> 32) & 0xff == (v / 0x1_0000_0000) % 0x100
        &&& (v >> 40) & 0xff == (v / 0x100_0000_0000) % 0x100
        &&& (v >> 48) & 0xff == (v / 0x1_0000_0000_0000) % 0x100
        &&& (v >> 56) & 0xff == (v / 0x100_0000_0000_0000) % 0x100
        &&& v >> 8 == v / 0x100
        &&& v >> 16 == v / 0x1_0000
        &&& v >> 24 == v / 0x100_0000
        &&& v >> 56 == v / 0x100_0000_0000_0000
        &&& v as u8 == v % 0x100
        &&& (v >> 8) as u8 == (v / 0x100) % 0x100
        &&& (v >> 16) as u8 == (v / 0x1_0000) % 0x100
        &&& (v >> 24) as u8 == (v / 0x100_0000) % 0x100
    }) by (bit_vector);
}

/// Reads a big-endian number of at most four bytes.
pub fn read_be(bytes: &[u8]) -> (v: u32)
    requires
        bytes@.len() <= 4,
    ensures
        v == be_value(bytes@),
{
    let mut v: u32 = 0;
    let mut i: usize = 0;
    assert(bytes@.take(0) =~= Seq::<u8>::empty());
    while i < bytes.len()
        invariant
            i <= bytes@.len() <= 4,
            v == be_value(bytes@.take(i as int)),
            v < radix(i as nat),
        decreases bytes@.len() - i,
    {
        proof {
            lemma_radix_values();
            assert(bytes@.take(i + 1).drop_last() =~= bytes@.take(i as int));
            lemma_be_bytes_of_value(bytes@.take(i + 1));
            assert(i == 0 || i == 1 || i == 2 || i == 3);
        }
        v = v * 256 + bytes[i] as u32;
        i += 1;
    }
    assert(bytes@.take(i as int) =~= bytes@);
    v
}

} // verus!
