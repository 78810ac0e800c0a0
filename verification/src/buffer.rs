//! Byte buffers read as big-endian unsigned integers.
//!
//! A buffer handed to a codec is a sequence of bytes whose numeric value is
//! the big-endian interpretation `be_val`. The inverse `to_bytes` writes a
//! value back into a fixed number of bytes. The executable readers and
//! writers here are proved against those two spec functions.

use vstd::prelude::*;
use vstd::arithmetic::power2::pow2;
use crate::bits::lemma_p2;

verus! {

/// The numeric value of a byte sequence interpreted as a big-endian integer.
pub open spec fn be_val(s: Seq<u8>) -> nat
    decreases s.len(),
{
    if s.len() == 0 {
        0
    } else {
        be_val(s.drop_last()) * 256 + (s.last() as nat)
    }
}

/// The `n` low-order bytes of `v`, most significant first.
pub open spec fn to_bytes(v: nat, n: nat) -> Seq<u8>
    decreases n,
{
    if n == 0 {
        Seq::empty()
    } else {
        to_bytes(v / 256, (n - 1) as nat).push((v % 256) as u8)
    }
}


/// The buffer with bit `e` (counted from the least significant end of the
/// big-endian value) inverted.
pub open spec fn flip_bit(s: Seq<u8>, e: nat) -> Seq<u8> {
    to_bytes(crate::bits::nat_xor(be_val(s), pow2(e)), s.len())
}

/// Concrete powers of two used for byte-width bounds.
pub proof fn lemma_pow2_byte_consts()
    ensures
        pow2(8) == 0x100,
        pow2(56) == 0x100000000000000,
        pow2(64) == 0x10000000000000000,
        pow2(119) == 0x800000000000000000000000000000,
        pow2(120) == 0x1000000000000000000000000000000,
        pow2(127) == 0x80000000000000000000000000000000,
        pow2(128) == 0x100000000000000000000000000000000,
{
    vstd::arithmetic::power2::lemma2_to64();
    vstd::arithmetic::power2::lemma2_to64_rest();
    vstd::arithmetic::power2::lemma_pow2_adds(64, 55);
    vstd::arithmetic::power2::lemma_pow2_adds(64, 56);
    vstd::arithmetic::power2::lemma_pow2_adds(64, 63);
    vstd::arithmetic::power2::lemma_pow2_adds(64, 64);
}

/// A byte sequence's value is bounded by the width of the sequence.
pub proof fn lemma_be_val_bound(s: Seq<u8>)
    ensures
        be_val(s) < pow2(8 * s.len()),
    decreases s.len(),
{
    if s.len() == 0 {
        lemma_p2(0);
    } else {
        let t = s.drop_last();
        lemma_be_val_bound(t);
        vstd::arithmetic::power2::lemma_pow2_adds(8 * t.len(), 8);
        vstd::arithmetic::power2::lemma2_to64();
        assert(be_val(t) * 256 + s.last() < pow2(8 * t.len()) * 256) by (nonlinear_arith)
            requires
                be_val(t) < pow2(8 * t.len()),
                s.last() < 256,
        ;
        assert(pow2(8 * t.len()) * 256 == pow2(8 * s.len()));
    }
}

/// `to_bytes` produces `n` bytes holding `v` modulo the width.
pub proof fn lemma_to_bytes_val(v: nat, n: nat)
    ensures
        to_bytes(v, n).len() == n,
        be_val(to_bytes(v, n)) == v % pow2(8 * n),
    decreases n,
{
    lemma_p2(8 * n);
    if n == 0 {
        assert(v % 1 == 0);
    } else {
        let n1 = (n - 1) as nat;
        lemma_to_bytes_val(v / 256, n1);
        let t = to_bytes(v / 256, n1);
        let s = to_bytes(v, n);
        assert(s == t.push((v % 256) as u8));
        assert(s.drop_last() == t);
        assert(s.last() == (v % 256) as u8);
        assert(be_val(s) == be_val(t) * 256 + v % 256);
        vstd::arithmetic::power2::lemma_pow2_adds(8, 8 * n1);
        vstd::arithmetic::power2::lemma2_to64();
        vstd::arithmetic::power2::lemma_pow2_pos(8 * n1);
        vstd::arithmetic::div_mod::lemma_mod_breakdown(v as int, 256, pow2(8 * n1) as int);
        assert(v % (256 * pow2(8 * n1)) == 256 * ((v / 256) % pow2(8 * n1)) + v % 256);
        assert(pow2(8 * n) == 256 * pow2(8 * n1));
    }
}

/// Writing back the value of a buffer of the same length reproduces it.
pub proof fn lemma_to_bytes_exact(s: Seq<u8>)
    ensures
        to_bytes(be_val(s), s.len()) == s,
    decreases s.len(),
{
    if s.len() == 0 {
        assert(to_bytes(0, 0) =~= s);
    } else {
        let t = s.drop_last();
        let v = be_val(s);
        assert(v == be_val(t) * 256 + s.last());
        vstd::arithmetic::div_mod::lemma_fundamental_div_mod_converse(
            v as int,
            256,
            be_val(t) as int,
            s.last() as int,
        );
        assert(v / 256 == be_val(t) && v % 256 == s.last());
        lemma_to_bytes_exact(t);
        assert(to_bytes(v, s.len()) == to_bytes(be_val(t), t.len()).push((v % 256) as u8));
        assert(to_bytes(v, s.len()) =~= s);
    }
}

/// Reads eight bytes as one big-endian `u64`.
pub fn read_u64_be(data: &Vec<u8>) -> (r: u64)
    requires
        data.len() == 8,
    ensures
        r as nat == be_val(data@),
{
    let mut r: u64 = 0;
    let mut i: usize = 0;
    proof {
        lemma_p2(0);
    }
    while i < 8
        invariant
            data.len() == 8,
            i <= 8,
            r as nat == be_val(data@.take(i as int)),
            (r as nat) < pow2(8 * (i as nat)),
        decreases 8 - i,
    {
        proof {
            lemma_be_val_bound(data@.take(i as int));
            lemma_pow2_byte_consts();
            if i < 7 {
                vstd::arithmetic::power2::lemma_pow2_strictly_increases(8 * (i as nat), 56);
            }
            assert(data@.take(i as int + 1).drop_last() == data@.take(i as int));
            assert(data@.take(i as int + 1).last() == data@[i as int]);
        }
        let b = data[i];
        proof {
            let r0 = r;
            assert((r0 << 8) | (b as u64) == r0 * 256 + b) by (bit_vector)
                requires
                    r0 < 0x100000000000000,
            ;
        }
        r = (r << 8) | (b as u64);
        i = i + 1;
        proof {
            lemma_be_val_bound(data@.take(i as int));
        }
    }
    proof {
        assert(data@.take(8) == data@);
    }
    r
}

/// Writes a `u64` into eight bytes, big-endian.
pub fn write_u64_be(data: &mut Vec<u8>, v: u64)
    requires
        old(data).len() == 8,
    ensures
        final(data)@ == to_bytes(v as nat, 8),
        final(data)@.len() == 8,
{
    proof {
        lemma_to_bytes_val(v as nat, 8);
    }
    let mut i: usize = 0;
    while i < 8
        invariant
            data.len() == 8,
            i <= 8,
            to_bytes(v as nat, 8).len() == 8,
            forall|j: int| 0 <= j < i ==> data@[j] == to_bytes(v as nat, 8)[j],
        decreases 8 - i,
    {
        let sh: u64 = (7 - i as u64) * 8;
        let b: u8 = (v >> sh) as u8;
        proof {
            vstd::bits::lemma_u64_shr_is_div(v, sh);
            let q = v >> sh;
            assert(q as u8 == q % 256) by (bit_vector);
            lemma_to_bytes_index(v as nat, 8, i as nat);
            assert(8 * (8 - 1 - i as nat) == sh as nat);
        }
        data[i] = b;
        i = i + 1;
    }
    proof {
        assert(data@ =~= to_bytes(v as nat, 8));
    }
}

/// The byte at index `j` of `to_bytes(v, n)`.
pub proof fn lemma_to_bytes_index(v: nat, n: nat, j: nat)
    requires
        j < n,
    ensures
        to_bytes(v, n)[j as int] == ((v / pow2(8 * (n - 1 - j) as nat)) % 256) as u8,
    decreases n,
{
    lemma_to_bytes_val(v, n);
    let n1 = (n - 1) as nat;
    lemma_to_bytes_val(v / 256, n1);
    if j == n1 {
        lemma_p2(0);
        assert(to_bytes(v, n)[j as int] == (v % 256) as u8);
        assert(v / pow2(0) == v);
    } else {
        lemma_to_bytes_index(v / 256, n1, j);
        assert(to_bytes(v, n)[j as int] == to_bytes(v / 256, n1)[j as int]);
        let e = 8 * (n1 - 1 - j) as nat;
        vstd::arithmetic::power2::lemma_pow2_adds(8, e);
        vstd::arithmetic::power2::lemma2_to64();
        vstd::arithmetic::power2::lemma_pow2_pos(e);
        vstd::arithmetic::div_mod::lemma_div_denominator(v as int, 256, pow2(e) as int);
        assert((v / 256) / pow2(e) == v / (256 * pow2(e)));
        assert(256 * pow2(e) == pow2(8 * (n - 1 - j) as nat));
    }
}

/// Reads sixteen bytes as one big-endian `u128`.
pub fn read_u128_be(data: &Vec<u8>) -> (r: u128)
    requires
        data.len() == 16,
    ensures
        r as nat == be_val(data@),
{
    let mut r: u128 = 0;
    let mut i: usize = 0;
    proof {
        lemma_p2(0);
    }
    while i < 16
        invariant
            data.len() == 16,
            i <= 16,
            r as nat == be_val(data@.take(i as int)),
            (r as nat) < pow2(8 * (i as nat)),
        decreases 16 - i,
    {
        proof {
            lemma_be_val_bound(data@.take(i as int));
            lemma_pow2_byte_consts();
            if i < 15 {
                vstd::arithmetic::power2::lemma_pow2_strictly_increases(8 * (i as nat), 120);
            }
            assert(data@.take(i as int + 1).drop_last() == data@.take(i as int));
            assert(data@.take(i as int + 1).last() == data@[i as int]);
        }
        let b = data[i];
        proof {
            let r0 = r;
            assert((r0 << 8) | (b as u128) == r0 * 256 + b) by (bit_vector)
                requires
                    r0 < 0x1000000000000000000000000000000u128,
            ;
        }
        r = (r << 8) | (b as u128);
        i = i + 1;
        proof {
            lemma_be_val_bound(data@.take(i as int));
        }
    }
    proof {
        assert(data@.take(16) == data@);
    }
    r
}

/// Writes a `u128` into sixteen bytes, big-endian.
pub fn write_u128_be(data: &mut Vec<u8>, v: u128)
    requires
        old(data).len() == 16,
    ensures
        final(data)@ == to_bytes(v as nat, 16),
        final(data)@.len() == 16,
{
    proof {
        lemma_to_bytes_val(v as nat, 16);
    }
    let mut i: usize = 0;
    while i < 16
        invariant
            data.len() == 16,
            i <= 16,
            to_bytes(v as nat, 16).len() == 16,
            forall|j: int| 0 <= j < i ==> data@[j] == to_bytes(v as nat, 16)[j],
        decreases 16 - i,
    {
        let sh: u128 = (15 - i as u128) * 8;
        let b: u8 = (v >> sh) as u8;
        proof {
            vstd::bits::lemma_u128_shr_is_div(v, sh);
            let q = v >> sh;
            assert(q as u8 == q % 256) by (bit_vector);
            lemma_to_bytes_index(v as nat, 16, i as nat);
            assert(8 * (16 - 1 - i as nat) == sh as nat);
        }
        data[i] = b;
        i = i + 1;
    }
    proof {
        assert(data@ =~= to_bytes(v as nat, 16));
    }
}

} // verus!
