//! Mathematical model of bit-level arithmetic on natural numbers.
//!
//! Every executable component of the crate states its contract over these
//! spec functions: `pop` counts set bits, and `nat_xor` / `nat_and` /
//! `nat_or` / `nat_diff` are the bitwise operations on arbitrary-width
//! natural numbers, defined by recursion on the binary representation.

use vstd::prelude::*;
use vstd::arithmetic::power2::pow2;

verus! {

/// Number of set bits in the binary representation of `x`.
pub open spec fn pop(x: nat) -> nat
    decreases x,
{
    if x == 0 {
        0
    } else {
        (x % 2) + pop(x / 2)
    }
}

/// Bitwise exclusive-or of two natural numbers.
pub open spec fn nat_xor(a: nat, b: nat) -> nat
    decreases a + b,
{
    if a == 0 && b == 0 {
        0
    } else {
        2 * nat_xor(a / 2, b / 2) + (if (a % 2 == 1) != (b % 2 == 1) {
            1nat
        } else {
            0nat
        })
    }
}

/// Bitwise and of two natural numbers.
pub open spec fn nat_and(a: nat, b: nat) -> nat
    decreases a + b,
{
    if a == 0 && b == 0 {
        0
    } else {
        2 * nat_and(a / 2, b / 2) + (if a % 2 == 1 && b % 2 == 1 {
            1nat
        } else {
            0nat
        })
    }
}

/// Bitwise or of two natural numbers.
pub open spec fn nat_or(a: nat, b: nat) -> nat
    decreases a + b,
{
    if a == 0 && b == 0 {
        0
    } else {
        2 * nat_or(a / 2, b / 2) + (if a % 2 == 1 || b % 2 == 1 {
            1nat
        } else {
            0nat
        })
    }
}

/// Bitwise and-not: the bits of `a` that are clear in `b`.
pub open spec fn nat_diff(a: nat, b: nat) -> nat
    decreases a,
{
    if a == 0 {
        0
    } else {
        2 * nat_diff(a / 2, b / 2) + (if a % 2 == 1 && b % 2 == 0 {
            1nat
        } else {
            0nat
        })
    }
}

/// A nonzero number has at least one set bit.
pub proof fn lemma_pop_zero(x: nat)
    ensures
        (pop(x) == 0) == (x == 0),
    decreases x,
{
    if x != 0 {
        lemma_pop_zero(x / 2);
    }
}

/// Splitting off the low bit of both operands, for use in inductive steps.
proof fn lemma_split_low_bit(a: nat)
    ensures
        a == 2 * (a / 2) + a % 2,
        a % 2 == 0 || a % 2 == 1,
{
}


/// The basic facts about `pow2` used throughout the crate.
pub proof fn lemma_p2(k: nat)
    ensures
        pow2(k) > 0,
        k > 0 ==> pow2(k) == 2 * pow2((k - 1) as nat),
        pow2(0) == 1,
{
    vstd::arithmetic::power2::lemma_pow2_pos(k);
    if k > 0 {
        vstd::arithmetic::power2::lemma_pow2_unfold(k);
    }
    vstd::arithmetic::power2::lemma2_to64();
}

/// A split of `x` into `a * pow2(k) + c` with `c < pow2(k)` gives the
/// quotient and remainder of `x` by `pow2(k)`.
pub proof fn lemma_chunk_div_mod(a: nat, c: nat, k: nat)
    requires
        c < pow2(k),
    ensures
        (a * pow2(k) + c) / pow2(k) == a,
        (a * pow2(k) + c) % pow2(k) == c,
{
    vstd::arithmetic::power2::lemma_pow2_pos(k);
    vstd::arithmetic::div_mod::lemma_fundamental_div_mod_converse(
        (a * pow2(k) + c) as int,
        pow2(k) as int,
        a as int,
        c as int,
    );
}

/// `pop` distributes over a split into a low chunk of `k` bits and the rest.
pub proof fn lemma_pop_chunk(a: nat, c: nat, k: nat)
    requires
        c < pow2(k),
    ensures
        pop(a * pow2(k) + c) == pop(a) + pop(c),
    decreases k,
{
    lemma_p2(k);
    if k == 0 {
        assert(c == 0);
        assert(a * pow2(0) + 0 == a * 1);
    } else {
        let x = a * pow2(k) + c;
        assert(pow2(k) == 2 * pow2((k - 1) as nat));
        assert(x == (a * pow2((k - 1) as nat) + c / 2) * 2 + c % 2) by (nonlinear_arith)
            requires
                x == a * pow2(k) + c,
                pow2(k) == 2 * pow2((k - 1) as nat),
                c == 2 * (c / 2) + c % 2,
        ;
        if x != 0 {
            assert(x % 2 == c % 2 && x / 2 == a * pow2((k - 1) as nat) + c / 2) by (nonlinear_arith)
                requires
                    x == (a * pow2((k - 1) as nat) + c / 2) * 2 + c % 2,
                    c % 2 < 2,
            ;
            assert(c / 2 < pow2((k - 1) as nat));
            lemma_pop_chunk(a, c / 2, (k - 1) as nat);
            assert(pop(c) == c % 2 + pop(c / 2));
        } else {
            assert(a * pow2(k) == 0) by (nonlinear_arith)
                requires
                    a * pow2(k) + c == 0,
            ;
            assert(a == 0) by (nonlinear_arith)
                requires
                    a * pow2(k) == 0,
                    pow2(k) > 0,
            ;
        }
    }
}

/// `pop` of a power of two is one.
pub proof fn lemma_pop_pow2(k: nat)
    ensures
        pop(pow2(k)) == 1,
    decreases k,
{
    lemma_p2(k);
    if k == 0 {
        assert(pow2(0) == 1);
        assert(pop(1) == 1nat % 2 + pop(1nat / 2));
    } else {
        lemma_pop_pow2((k - 1) as nat);
        assert(pow2(k) == 2 * pow2((k - 1) as nat));
        assert(pow2(k) % 2 == 0);
        assert(pow2(k) / 2 == pow2((k - 1) as nat));
    }
}

/// Identities with a zero operand.
pub proof fn lemma_zero_ops(a: nat)
    ensures
        nat_xor(a, 0) == a,
        nat_xor(0, a) == a,
        nat_or(a, 0) == a,
        nat_or(0, a) == a,
        nat_and(a, 0) == 0,
        nat_and(0, a) == 0,
        nat_diff(a, 0) == a,
        nat_diff(0, a) == 0,
    decreases a,
{
    if a != 0 {
        lemma_zero_ops(a / 2);
    }
}

/// Exclusive-or undoes itself.
pub proof fn lemma_xor_involution(a: nat, b: nat)
    ensures
        nat_xor(nat_xor(a, b), b) == a,
    decreases a + b,
{
    if a == 0 && b == 0 {
    } else {
        lemma_xor_involution(a / 2, b / 2);
        lemma_split_low_bit(a);
        lemma_split_low_bit(b);
    }
}

/// On operands with no common set bit, or, xor and addition agree.
pub proof fn lemma_disjoint_or(a: nat, b: nat)
    requires
        nat_and(a, b) == 0,
    ensures
        nat_or(a, b) == a + b,
        nat_xor(a, b) == a + b,
    decreases a + b,
{
    if a == 0 && b == 0 {
    } else {
        assert(nat_and(a / 2, b / 2) == 0 && !(a % 2 == 1 && b % 2 == 1));
        lemma_disjoint_or(a / 2, b / 2);
        lemma_split_low_bit(a);
        lemma_split_low_bit(b);
    }
}

/// The parity of an exclusive-or is the sum of the parities.
pub proof fn lemma_pop_xor_parity(a: nat, b: nat)
    ensures
        pop(nat_xor(a, b)) % 2 == (pop(a) + pop(b)) % 2,
    decreases a + b,
{
    if a == 0 && b == 0 {
    } else {
        lemma_pop_xor_parity(a / 2, b / 2);
        let x = nat_xor(a, b);
        let bit = if (a % 2 == 1) != (b % 2 == 1) {
            1nat
        } else {
            0nat
        };
        assert(x == 2 * nat_xor(a / 2, b / 2) + bit);
        assert(x / 2 == nat_xor(a / 2, b / 2) && x % 2 == bit);
        if x != 0 {
            assert(pop(x) == bit + pop(nat_xor(a / 2, b / 2)));
        } else {
            lemma_pop_zero(x);
            lemma_pop_zero(nat_xor(a / 2, b / 2));
        }
        assert(pop(a) == if a == 0 {
            0nat
        } else {
            a % 2 + pop(a / 2)
        });
        assert(pop(b) == if b == 0 {
            0nat
        } else {
            b % 2 + pop(b / 2)
        });
    }
}

/// And distributes over exclusive-or.
pub proof fn lemma_and_dist_xor(r: nat, a: nat, b: nat)
    ensures
        nat_and(r, nat_xor(a, b)) == nat_xor(nat_and(r, a), nat_and(r, b)),
    decreases a + b + r,
{
    if r == 0 && a == 0 && b == 0 {
    } else {
        lemma_and_dist_xor(r / 2, a / 2, b / 2);
        lemma_split_low_bit(r);
        lemma_split_low_bit(a);
        lemma_split_low_bit(b);
        let x = nat_xor(a, b);
        assert(x / 2 == nat_xor(a / 2, b / 2) && x % 2 == (if (a % 2 == 1) != (b % 2 == 1) {
            1nat
        } else {
            0nat
        }));
        let ra = nat_and(r, a);
        let rb = nat_and(r, b);
        assert(ra / 2 == nat_and(r / 2, a / 2) && ra % 2 == (if r % 2 == 1 && a % 2 == 1 {
            1nat
        } else {
            0nat
        }));
        assert(rb / 2 == nat_and(r / 2, b / 2) && rb % 2 == (if r % 2 == 1 && b % 2 == 1 {
            1nat
        } else {
            0nat
        }));
    }
}

/// Bitwise operations stay below a power of two that bounds both operands.
pub proof fn lemma_ops_bound(a: nat, b: nat, k: nat)
    requires
        a < pow2(k),
        b < pow2(k),
    ensures
        nat_xor(a, b) < pow2(k),
        nat_and(a, b) < pow2(k),
        nat_or(a, b) < pow2(k),
        nat_diff(a, b) < pow2(k),
    decreases k,
{
    lemma_p2(k);
    if k == 0 {
        assert(a == 0 && b == 0);
    } else {
        assert(a / 2 < pow2((k - 1) as nat) && b / 2 < pow2((k - 1) as nat));
        lemma_ops_bound(a / 2, b / 2, (k - 1) as nat);
        lemma_split_low_bit(a);
        lemma_split_low_bit(b);
    }
}

/// Each bitwise operation splits along a chunk boundary of `k` bits.
pub proof fn lemma_ops_chunk(ah: nat, al: nat, bh: nat, bl: nat, k: nat)
    requires
        al < pow2(k),
        bl < pow2(k),
    ensures
        nat_xor(ah * pow2(k) + al, bh * pow2(k) + bl) == nat_xor(ah, bh) * pow2(k) + nat_xor(
            al,
            bl,
        ),
        nat_and(ah * pow2(k) + al, bh * pow2(k) + bl) == nat_and(ah, bh) * pow2(k) + nat_and(
            al,
            bl,
        ),
        nat_or(ah * pow2(k) + al, bh * pow2(k) + bl) == nat_or(ah, bh) * pow2(k) + nat_or(al, bl),
        nat_diff(ah * pow2(k) + al, bh * pow2(k) + bl) == nat_diff(ah, bh) * pow2(k) + nat_diff(
            al,
            bl,
        ),
    decreases k,
{
    lemma_p2(k);
    if k == 0 {
        assert(al == 0 && bl == 0);
        assert(ah * pow2(0) + 0 == ah * 1);
        assert(bh * pow2(0) + 0 == bh * 1);
    } else {
        let k1 = (k - 1) as nat;
        let a = ah * pow2(k) + al;
        let b = bh * pow2(k) + bl;
        assert(a == (ah * pow2(k1) + al / 2) * 2 + al % 2 && b == (bh * pow2(k1) + bl / 2) * 2 + bl
            % 2) by (nonlinear_arith)
            requires
                a == ah * pow2(k) + al,
                b == bh * pow2(k) + bl,
                pow2(k) == 2 * pow2(k1),
                al == 2 * (al / 2) + al % 2,
                bl == 2 * (bl / 2) + bl % 2,
        ;
        assert(a / 2 == ah * pow2(k1) + al / 2 && a % 2 == al % 2) by (nonlinear_arith)
            requires
                a == (ah * pow2(k1) + al / 2) * 2 + al % 2,
                al % 2 < 2,
        ;
        assert(b / 2 == bh * pow2(k1) + bl / 2 && b % 2 == bl % 2) by (nonlinear_arith)
            requires
                b == (bh * pow2(k1) + bl / 2) * 2 + bl % 2,
                bl % 2 < 2,
        ;
        assert(al / 2 < pow2(k1) && bl / 2 < pow2(k1));
        lemma_ops_chunk(ah, al / 2, bh, bl / 2, k1);
        if a == 0 && b == 0 {
            assert(ah == 0 && bh == 0) by (nonlinear_arith)
                requires
                    ah * pow2(k) + al == 0,
                    bh * pow2(k) + bl == 0,
                    pow2(k) > 0,
            ;
            lemma_zero_ops(0);
        } else {
            assert(nat_xor(a, b) == 2 * nat_xor(a / 2, b / 2) + (if (a % 2 == 1) != (b % 2 == 1) {
                1nat
            } else {
                0nat
            }));
            assert(2 * (nat_xor(ah, bh) * pow2(k1) + nat_xor(al / 2, bl / 2)) == nat_xor(ah, bh)
                * pow2(k) + 2 * nat_xor(al / 2, bl / 2)) by (nonlinear_arith)
                requires
                    pow2(k) == 2 * pow2(k1),
            ;
            assert(2 * (nat_and(ah, bh) * pow2(k1) + nat_and(al / 2, bl / 2)) == nat_and(ah, bh)
                * pow2(k) + 2 * nat_and(al / 2, bl / 2)) by (nonlinear_arith)
                requires
                    pow2(k) == 2 * pow2(k1),
            ;
            assert(2 * (nat_or(ah, bh) * pow2(k1) + nat_or(al / 2, bl / 2)) == nat_or(ah, bh)
                * pow2(k) + 2 * nat_or(al / 2, bl / 2)) by (nonlinear_arith)
                requires
                    pow2(k) == 2 * pow2(k1),
            ;
            assert(2 * (nat_diff(ah, bh) * pow2(k1) + nat_diff(al / 2, bl / 2)) == nat_diff(ah, bh)
                * pow2(k) + 2 * nat_diff(al / 2, bl / 2)) by (nonlinear_arith)
                requires
                    pow2(k) == 2 * pow2(k1),
            ;
            if a == 0 {
                lemma_zero_ops(b);
                lemma_zero_ops(b / 2);
                assert(ah == 0 && al == 0) by (nonlinear_arith)
                    requires
                        ah * pow2(k) + al == 0,
                        pow2(k) > 0,
                ;
                lemma_zero_ops(bh);
                lemma_zero_ops(bl);
                lemma_zero_ops(bl / 2);
            }
            if b == 0 {
                lemma_zero_ops(a);
                lemma_zero_ops(a / 2);
                assert(bh == 0 && bl == 0) by (nonlinear_arith)
                    requires
                        bh * pow2(k) + bl == 0,
                        pow2(k) > 0,
                ;
                lemma_zero_ops(ah);
                lemma_zero_ops(al);
                lemma_zero_ops(al / 2);
            }
        }
    }
}

/// And with the mask of the low `k` bits is the remainder modulo `pow2(k)`.
pub proof fn lemma_and_low_mask(a: nat, k: nat)
    ensures
        nat_and(a, (pow2(k) - 1) as nat) == a % pow2(k),
    decreases a,
{
    lemma_p2(k);
    let m = (pow2(k) - 1) as nat;
    if a == 0 {
        lemma_zero_ops(m);
        assert(0nat % pow2(k) == 0);
    } else {
        if k == 0 {
            lemma_zero_ops(a);
            assert(a % pow2(0) == 0);
        } else {
            lemma_and_low_mask(a / 2, (k - 1) as nat);
            assert(m / 2 == (pow2((k - 1) as nat) - 1) as nat && m % 2 == 1);
            lemma_split_low_bit(a);
            vstd::arithmetic::div_mod::lemma_mod_breakdown(a as int, 2, pow2((k - 1) as nat) as int);
            assert(a % pow2(k) == 2 * ((a / 2) % pow2((k - 1) as nat)) + a % 2);
        }
    }
}

/// Clearing the low `k` bits of a number whose low `k` bits carry `c`.
pub proof fn lemma_diff_low_mask(ah: nat, c: nat, k: nat)
    requires
        c < pow2(k),
    ensures
        nat_diff(ah * pow2(k) + c, (pow2(k) - 1) as nat) == ah * pow2(k),
{
    vstd::arithmetic::power2::lemma_pow2_pos(k);
    lemma_ops_chunk(ah, c, 0, (pow2(k) - 1) as nat, k);
    lemma_zero_ops(ah);
    lemma_diff_all_ones(c, k);
}

/// And-not against an all-ones mask clears everything below it.
pub proof fn lemma_diff_all_ones(c: nat, k: nat)
    requires
        c < pow2(k),
    ensures
        nat_diff(c, (pow2(k) - 1) as nat) == 0,
    decreases k,
{
    lemma_p2(k);
    if c == 0 {
    } else {
        let m = (pow2(k) - 1) as nat;
        assert(k != 0);
        assert(m / 2 == (pow2((k - 1) as nat) - 1) as nat && m % 2 == 1);
        assert(c / 2 < pow2((k - 1) as nat));
        lemma_diff_all_ones(c / 2, (k - 1) as nat);
    }
}

/// And of a power of two extracts a single bit.
pub proof fn lemma_and_pow2(c: nat, j: nat)
    ensures
        nat_and(pow2(j), c) == pow2(j) * ((c / pow2(j)) % 2),
    decreases j,
{
    lemma_p2(j);
    if j == 0 {
        if c == 0 {
            lemma_zero_ops(1);
        } else {
            assert(nat_and(1, c) == 2 * nat_and(0, c / 2) + (if c % 2 == 1 {
                1nat
            } else {
                0nat
            }));
            lemma_zero_ops(c / 2);
        }
    } else {
        lemma_and_pow2(c / 2, (j - 1) as nat);
        let p = pow2(j);
        assert(p / 2 == pow2((j - 1) as nat) && p % 2 == 0);
        if c == 0 {
            lemma_zero_ops(p);
            assert(0nat / p == 0);
        } else {
            assert(nat_and(p, c) == 2 * nat_and(pow2((j - 1) as nat), c / 2));
            assert((c / 2) / pow2((j - 1) as nat) == c / pow2(j)) by (nonlinear_arith)
                requires
                    pow2(j) == 2 * pow2((j - 1) as nat),
                    pow2((j - 1) as nat) > 0,
            ;
            assert(2 * (pow2((j - 1) as nat) * ((c / pow2(j)) % 2)) == pow2(j) * ((c / pow2(j))
                % 2)) by (nonlinear_arith)
                requires
                    pow2(j) == 2 * pow2((j - 1) as nat),
            ;
        }
    }
}


/// `pop` is bounded by the bit width.
pub proof fn lemma_pop_bound(x: nat, k: nat)
    requires
        x < pow2(k),
    ensures
        pop(x) <= k,
    decreases k,
{
    lemma_p2(k);
    if k == 0 {
    } else {
        assert(x / 2 < pow2((k - 1) as nat));
        lemma_pop_bound(x / 2, (k - 1) as nat);
    }
}


/// `pow2` of any exponent below the width fits in a `u128`.
pub proof fn lemma_u128_pow2_fits(e: nat)
    requires
        e < 128,
    ensures
        pow2(e) <= u128::MAX,
{
    vstd::arithmetic::power2::lemma2_to64();
    vstd::arithmetic::power2::lemma2_to64_rest();
    vstd::arithmetic::power2::lemma_pow2_adds(64, 63);
    if e < 127 {
        vstd::arithmetic::power2::lemma_pow2_strictly_increases(e, 127);
    }
}

/// Left shift on `u128` multiplies by a power of two when the product
/// fits.
pub proof fn lemma_u128_shl_is_mul(x: u128, shift: u128)
    requires
        shift < 128,
        x as nat * pow2(shift as nat) <= u128::MAX,
    ensures
        (x << shift) as nat == x as nat * pow2(shift as nat),
    decreases shift,
{
    lemma_p2(shift as nat);
    if shift == 0 {
        assert(x << 0u128 == x) by (bit_vector);
        assert(x << shift == x);
        assert(x as nat * pow2(shift as nat) == x as nat * 1);
        assert((x << shift) as nat == x as nat * pow2(shift as nat));
    } else {
        let s1 = (shift - 1) as u128;
        assert(x as nat * pow2(s1 as nat) * 2 == x as nat * pow2(shift as nat))
            by (nonlinear_arith)
            requires
                pow2(shift as nat) == 2 * pow2(s1 as nat),
        ;
        lemma_u128_shl_is_mul(x, s1);
        let y = x << s1;
        assert(x << shift == (x << s1) << 1u128) by (bit_vector)
            requires
                1 <= shift < 128,
                s1 == shift - 1,
        ;
        assert(y <= u128::MAX / 2);
        assert(y << 1u128 == 2 * y) by (bit_vector)
            requires
                y <= u128::MAX / 2,
        ;
        assert((x << shift) as nat == 2 * (y as nat));
        assert(2 * (y as nat) == x as nat * pow2(shift as nat));
    }
}

/// The machine exclusive-or on `u64` computes `nat_xor`.
pub proof fn lemma_u64_xor(x: u64, y: u64)
    ensures
        (x ^ y) as nat == nat_xor(x as nat, y as nat),
    decreases x + y,
{
    assert(0u64 ^ 0u64 == 0 && x >> 1 == x / 2 && y >> 1 == y / 2 && (x ^ y) == 2 * ((x
        >> 1) ^ (y >> 1)) + (if (x % 2 == 1) != (y % 2 == 1) {
        1u64
    } else {
        0u64
    })) by (bit_vector);
    if x == 0 && y == 0 {
    } else {
        lemma_u64_xor(x >> 1, y >> 1);
    }
}

/// The machine and on `u64` computes `nat_and`.
pub proof fn lemma_u64_and(x: u64, y: u64)
    ensures
        (x & y) as nat == nat_and(x as nat, y as nat),
    decreases x + y,
{
    assert(0u64 & 0u64 == 0 && x >> 1 == x / 2 && y >> 1 == y / 2 && (x & y) == 2 * ((x
        >> 1) & (y >> 1)) + (if x % 2 == 1 && y % 2 == 1 {
        1u64
    } else {
        0u64
    })) by (bit_vector);
    if x == 0 && y == 0 {
    } else {
        lemma_u64_and(x >> 1, y >> 1);
    }
}

/// The machine or on `u64` computes `nat_or`.
pub proof fn lemma_u64_or(x: u64, y: u64)
    ensures
        (x | y) as nat == nat_or(x as nat, y as nat),
    decreases x + y,
{
    assert(0u64 | 0u64 == 0 && x >> 1 == x / 2 && y >> 1 == y / 2 && (x | y) == 2 * ((x
        >> 1) | (y >> 1)) + (if x % 2 == 1 || y % 2 == 1 {
        1u64
    } else {
        0u64
    })) by (bit_vector);
    if x == 0 && y == 0 {
    } else {
        lemma_u64_or(x >> 1, y >> 1);
    }
}

/// The machine and-not on `u64` computes `nat_diff`.
pub proof fn lemma_u64_diff(x: u64, y: u64)
    ensures
        (x & !y) as nat == nat_diff(x as nat, y as nat),
    decreases x,
{
    assert(0u64 & !y == 0 && x >> 1 == x / 2 && y >> 1 == y / 2 && (x != 0 ==> x / 2 < x) && (x
        & !y) == 2 * ((x >> 1) & !(y >> 1)) + (if x % 2 == 1 && y % 2 == 0 {
        1u64
    } else {
        0u64
    })) by (bit_vector);
    if x == 0 {
    } else {
        lemma_u64_diff(x >> 1, y >> 1);
    }
}

/// The machine population count loop invariant step on `u64`: `pop` of the
/// value equals its low bit plus `pop` of the value shifted right once.
pub proof fn lemma_u64_pop_step(x: u64)
    ensures
        x != 0 ==> pop(x as nat) == (x & 1) + pop((x >> 1) as nat),
        (x >> 1) as nat == x as nat / 2,
        x & 1 == x % 2,
{
    assert(x >> 1 == x / 2 && x & 1 == x % 2) by (bit_vector);
}

/// The machine exclusive-or on `u128` computes `nat_xor`.
pub proof fn lemma_u128_xor(x: u128, y: u128)
    ensures
        (x ^ y) as nat == nat_xor(x as nat, y as nat),
    decreases x + y,
{
    assert(0u128 ^ 0u128 == 0 && x >> 1 == x / 2 && y >> 1 == y / 2 && (x ^ y) == 2 * ((x
        >> 1) ^ (y >> 1)) + (if (x % 2 == 1) != (y % 2 == 1) {
        1u128
    } else {
        0u128
    })) by (bit_vector);
    if x == 0 && y == 0 {
    } else {
        lemma_u128_xor(x >> 1, y >> 1);
    }
}

/// The machine and on `u128` computes `nat_and`.
pub proof fn lemma_u128_and(x: u128, y: u128)
    ensures
        (x & y) as nat == nat_and(x as nat, y as nat),
    decreases x + y,
{
    assert(0u128 & 0u128 == 0 && x >> 1 == x / 2 && y >> 1 == y / 2 && (x & y) == 2 * ((x
        >> 1) & (y >> 1)) + (if x % 2 == 1 && y % 2 == 1 {
        1u128
    } else {
        0u128
    })) by (bit_vector);
    if x == 0 && y == 0 {
    } else {
        lemma_u128_and(x >> 1, y >> 1);
    }
}

/// The machine or on `u128` computes `nat_or`.
pub proof fn lemma_u128_or(x: u128, y: u128)
    ensures
        (x | y) as nat == nat_or(x as nat, y as nat),
    decreases x + y,
{
    assert(0u128 | 0u128 == 0 && x >> 1 == x / 2 && y >> 1 == y / 2 && (x | y) == 2 * ((x
        >> 1) | (y >> 1)) + (if x % 2 == 1 || y % 2 == 1 {
        1u128
    } else {
        0u128
    })) by (bit_vector);
    if x == 0 && y == 0 {
    } else {
        lemma_u128_or(x >> 1, y >> 1);
    }
}

/// The machine and-not on `u128` computes `nat_diff`.
pub proof fn lemma_u128_diff(x: u128, y: u128)
    ensures
        (x & !y) as nat == nat_diff(x as nat, y as nat),
    decreases x,
{
    assert(0u128 & !y == 0 && x >> 1 == x / 2 && y >> 1 == y / 2 && (x != 0 ==> x / 2 < x) && (x
        & !y) == 2 * ((x >> 1) & !(y >> 1)) + (if x % 2 == 1 && y % 2 == 0 {
        1u128
    } else {
        0u128
    })) by (bit_vector);
    if x == 0 {
    } else {
        lemma_u128_diff(x >> 1, y >> 1);
    }
}

/// The machine population count loop invariant step on `u128`.
pub proof fn lemma_u128_pop_step(x: u128)
    ensures
        x != 0 ==> pop(x as nat) == (x & 1) + pop((x >> 1) as nat),
        (x >> 1) as nat == x as nat / 2,
        x & 1 == x % 2,
{
    assert(x >> 1 == x / 2 && x & 1 == x % 2) by (bit_vector);
}


/// The machine exclusive-or on `u8` computes `nat_xor`.
pub proof fn lemma_u8_xor(x: u8, y: u8)
    ensures
        (x ^ y) as nat == nat_xor(x as nat, y as nat),
    decreases x + y,
{
    assert(0u8 ^ 0u8 == 0 && x >> 1 == x / 2 && y >> 1 == y / 2 && (x ^ y) == 2 * ((x
        >> 1) ^ (y >> 1)) + (if (x % 2 == 1) != (y % 2 == 1) {
        1u8
    } else {
        0u8
    })) by (bit_vector);
    if x == 0 && y == 0 {
    } else {
        lemma_u8_xor(x >> 1, y >> 1);
    }
}

/// The machine and on `u8` computes `nat_and`.
pub proof fn lemma_u8_and(x: u8, y: u8)
    ensures
        (x & y) as nat == nat_and(x as nat, y as nat),
    decreases x + y,
{
    assert(0u8 & 0u8 == 0 && x >> 1 == x / 2 && y >> 1 == y / 2 && (x & y) == 2 * ((x
        >> 1) & (y >> 1)) + (if x % 2 == 1 && y % 2 == 1 {
        1u8
    } else {
        0u8
    })) by (bit_vector);
    if x == 0 && y == 0 {
    } else {
        lemma_u8_and(x >> 1, y >> 1);
    }
}

/// The machine or on `u8` computes `nat_or`.
pub proof fn lemma_u8_or(x: u8, y: u8)
    ensures
        (x | y) as nat == nat_or(x as nat, y as nat),
    decreases x + y,
{
    assert(0u8 | 0u8 == 0 && x >> 1 == x / 2 && y >> 1 == y / 2 && (x | y) == 2 * ((x
        >> 1) | (y >> 1)) + (if x % 2 == 1 || y % 2 == 1 {
        1u8
    } else {
        0u8
    })) by (bit_vector);
    if x == 0 && y == 0 {
    } else {
        lemma_u8_or(x >> 1, y >> 1);
    }
}

/// The machine and-not on `u8` computes `nat_diff`.
pub proof fn lemma_u8_diff(x: u8, y: u8)
    ensures
        (x & !y) as nat == nat_diff(x as nat, y as nat),
    decreases x,
{
    assert(0u8 & !y == 0 && x >> 1 == x / 2 && y >> 1 == y / 2 && (x != 0 ==> x / 2 < x) && (x
        & !y) == 2 * ((x >> 1) & !(y >> 1)) + (if x % 2 == 1 && y % 2 == 0 {
        1u8
    } else {
        0u8
    })) by (bit_vector);
    if x == 0 {
    } else {
        lemma_u8_diff(x >> 1, y >> 1);
    }
}

/// The machine population count loop invariant step on `u8`.
pub proof fn lemma_u8_pop_step(x: u8)
    ensures
        x != 0 ==> pop(x as nat) == (x & 1) + pop((x >> 1) as nat),
        (x >> 1) as nat == x as nat / 2,
        x & 1 == x % 2,
{
    assert(x >> 1 == x / 2 && x & 1 == x % 2) by (bit_vector);
}

} // verus!
