//! The construction of the parity-check matrix and its algebra.
//!
//! A codec for `size` payload bits uses `m` parity-check rows plus one
//! overall parity bit, where `m` is the smallest number such that
//! `2^m - m - 1 >= size`. The first construction pass enumerates every
//! candidate column value `1..=2^m` with at least two set bits and appends
//! its binary digits to the rows, most significant column first; the second
//! pass shifts every row past the `m + 1`-bit check field and sets the
//! row's own dedicated check bit. The spec functions here mirror that
//! construction exactly, and the lemmas give the algebraic facts the
//! codecs' proofs rest on: the parity product is linear under exclusive-or,
//! it reproduces a check field unchanged, and it vanishes on a correctly
//! encoded word.

use vstd::prelude::*;
use vstd::arithmetic::power2::pow2;
use crate::bits::{pop, nat_xor, nat_and, nat_or, nat_diff, lemma_p2, lemma_pop_zero,
    lemma_pop_chunk, lemma_pop_pow2, lemma_zero_ops, lemma_xor_involution, lemma_disjoint_or,
    lemma_pop_xor_parity, lemma_and_dist_xor, lemma_ops_bound, lemma_ops_chunk,
    lemma_and_low_mask, lemma_diff_low_mask, lemma_and_pow2, lemma_chunk_div_mod};

verus! {

/// `m` is the check-row count for `size` payload bits: the smallest `m`
/// with `2^m - m - 1 >= size`.
pub open spec fn is_code_width(size: nat, m: nat) -> bool {
    &&& 1 <= m
    &&& pow2(m) >= size + m + 1
    &&& (m == 1 || pow2((m - 1) as nat) < size + m)
}

/// `pow2(a) - a` grows with `a`.
proof fn lemma_pow2_minus_arg_monotone(a: nat, b: nat)
    requires
        a <= b,
    ensures
        pow2(a) + b <= pow2(b) + a,
    decreases b - a,
{
    if a < b {
        lemma_pow2_minus_arg_monotone(a, (b - 1) as nat);
        lemma_p2(b);
        lemma_p2((b - 1) as nat);
    }
}

/// Pairwise distinct syndromes for all single-bit error positions of a
/// codec with `m` check rows and `size` payload bits.
pub open spec fn syndromes_distinct(m: nat, size: nat) -> bool {
    forall|i: nat, j: nat|
        #![trigger syndrome_of(m, i), syndrome_of(m, j)]
        i < j <= size + m ==> syndrome_of(m, i) != syndrome_of(m, j)
}

/// A capacity bound on the payload bounds the check-row count.
pub proof fn lemma_code_width_cap(size: nat, m: nat, cap_m: nat, cap_size: nat)
    requires
        is_code_width(size, m),
        size <= cap_size,
        1 <= cap_m,
        pow2(cap_m) >= cap_size + cap_m + 1,
    ensures
        m <= cap_m,
{
    if m > cap_m {
        lemma_pow2_minus_arg_monotone(cap_m, (m - 1) as nat);
        assert(pow2((m - 1) as nat) >= pow2(cap_m) + m - 1 - cap_m);
    }
}

/// Smallest number of check rows whose Hamming code covers
/// `encodable_size` payload bits.
pub fn hamming_size(encodable_size: usize) -> (m: usize)
    requires
        encodable_size <= 0xffffffff,
    ensures
        is_code_width(encodable_size as nat, m as nat),
        m <= 33,
{
    let size: u64 = encodable_size as u64;
    let mut m: u64 = 1;
    proof {
        vstd::arithmetic::power2::lemma2_to64();
        vstd::arithmetic::power2::lemma2_to64_rest();
    }
    while (1u64 << m) < size + m + 1
        invariant
            1 <= m <= 33,
            size <= 0xffffffff,
            m == 1 || pow2((m - 1) as nat) < size + m,
        decreases 33 - m,
    {
        proof {
            vstd::arithmetic::power2::lemma2_to64();
            vstd::arithmetic::power2::lemma2_to64_rest();
            vstd::bits::lemma_u64_pow2_no_overflow(m as nat);
            vstd::bits::lemma_u64_shl_is_mul(1u64, m);
            assert(pow2(m as nat) < size + m + 1);
            if m == 33 {
                assert(false);
            }
        }
        m = m + 1;
    }
    proof {
        vstd::bits::lemma_u64_pow2_no_overflow(m as nat);
        vstd::bits::lemma_u64_shl_is_mul(1u64, m);
    }
    m as usize
}

/// Number of integers in `1..=i` with at least two set bits.
pub open spec fn w2count(i: nat) -> nat
    decreases i,
{
    if i == 0 {
        0
    } else {
        w2count((i - 1) as nat) + (if pop(i) >= 2 {
            1nat
        } else {
            0nat
        })
    }
}

/// `w2count` never decreases.
pub proof fn lemma_w2count_monotone(i: nat, j: nat)
    requires
        i <= j,
    ensures
        w2count(i) <= w2count(j),
    decreases j - i,
{
    if i < j {
        lemma_w2count_monotone(i, (j - 1) as nat);
    }
}

/// Every value strictly between two neighbouring powers of two has at
/// least two set bits, so `w2count` counts the whole open range.
proof fn lemma_w2count_range(m: nat, i: nat)
    requires
        1 <= m,
        pow2((m - 1) as nat) < i,
        i <= pow2(m),
    ensures
        w2count(i) == w2count(pow2((m - 1) as nat)) + (i - pow2((m - 1) as nat)) - (if i == pow2(m) {
            1int
        } else {
            0int
        }),
    decreases i,
{
    lemma_p2(m);
    lemma_p2((m - 1) as nat);
    if i == pow2(m) {
        lemma_pop_pow2(m);
        if i - 1 == pow2((m - 1) as nat) {
            assert(m == 1);
        } else {
            lemma_w2count_range(m, (i - 1) as nat);
        }
    } else {
        let r = (i - pow2((m - 1) as nat)) as nat;
        assert(0 < r < pow2((m - 1) as nat));
        assert(i == 1 * pow2((m - 1) as nat) + r);
        lemma_pop_chunk(1, r, (m - 1) as nat);
        lemma_pop_zero(r);
        assert(pop(1) == 1nat % 2 + pop(1nat / 2));
        assert(pop(i) >= 2);
        if i - 1 == pow2((m - 1) as nat) {
        } else {
            lemma_w2count_range(m, (i - 1) as nat);
        }
    }
}

/// Among `1..=2^m` exactly `2^m - m - 1` values have two or more set bits.
pub proof fn lemma_w2count_pow2(m: nat)
    requires
        1 <= m,
    ensures
        w2count(pow2(m)) == pow2(m) - m - 1,
    decreases m,
{
    lemma_p2(m);
    lemma_p2((m - 1) as nat);
    if m == 1 {
        assert(pop(1) == 1nat % 2 + pop(1nat / 2));
        assert(pop(2) == 2nat % 2 + pop(2nat / 2));
        assert(w2count(2) == w2count(1) + 0);
        assert(w2count(1) == w2count(0) + 0);
    } else {
        lemma_w2count_pow2((m - 1) as nat);
        lemma_w2count_range(m, pow2(m));
        vstd::arithmetic::power2::lemma_pow2_strictly_increases((m - 1) as nat, m);
    }
}

/// Parity-check rows after the first construction pass has processed the
/// candidate column values `1..=i`.
pub open spec fn rows_upto(m: nat, i: nat) -> Seq<nat>
    decreases i,
{
    if i == 0 {
        Seq::new(m, |k: int| 0nat)
    } else {
        let prev = rows_upto(m, (i - 1) as nat);
        if pop(i) < 2 {
            prev
        } else {
            Seq::new(m, |k: int| 2 * prev[k] + (i / pow2((m - 1 - k) as nat)) % 2)
        }
    }
}

/// The rows of the first pass stay below `pow2(w2count(i))`.
pub proof fn lemma_rows_upto_bound(m: nat, i: nat, k: int)
    requires
        0 <= k < m,
    ensures
        rows_upto(m, i).len() == m,
        rows_upto(m, i)[k] < pow2(w2count(i)),
    decreases i,
{
    lemma_p2(w2count(i));
    if i == 0 {
    } else {
        lemma_rows_upto_bound(m, (i - 1) as nat, k);
        if pop(i) >= 2 {
            lemma_p2(w2count((i - 1) as nat) + 1);
        }
    }
}

/// The finished parity-check rows: each first-pass row shifted past the
/// check field, with the row's dedicated check bit set.
pub open spec fn spec_rows(m: nat) -> Seq<nat> {
    Seq::new(m, |k: int| rows_upto(m, pow2(m))[k] * pow2(m + 1) + pow2((m - k) as nat))
}

/// Low-order structure of the finished rows: the check field of row `k`
/// holds exactly the single bit `m - k`, and every row is even.
pub proof fn lemma_spec_rows_structure(m: nat, k: int)
    requires
        0 <= k < m,
    ensures
        spec_rows(m).len() == m,
        spec_rows(m)[k] % pow2(m + 1) == pow2((m - k) as nat),
        spec_rows(m)[k] % 2 == 0,
{
    let h = rows_upto(m, pow2(m))[k];
    let row = spec_rows(m)[k];
    vstd::arithmetic::power2::lemma_pow2_strictly_increases((m - k) as nat, m + 1);
    lemma_chunk_div_mod(h, pow2((m - k) as nat), m + 1);
    lemma_p2((m - k) as nat);
    lemma_p2(m + 1);
    assert(row == h * pow2(m + 1) + pow2((m - k) as nat));
    assert(pow2(m + 1) == 2 * pow2(m));
    assert(pow2((m - k) as nat) == 2 * pow2((m - k - 1) as nat));
    assert(row == 2 * (h * pow2(m) + pow2((m - k - 1) as nat))) by (nonlinear_arith)
        requires
            row == h * pow2(m + 1) + pow2((m - k) as nat),
            pow2(m + 1) == 2 * pow2(m),
            pow2((m - k) as nat) == 2 * pow2((m - k - 1) as nat),
    ;
}

/// One parity bit: the parity of the bits that `row` selects from `v`.
pub open spec fn row_parity(row: nat, v: nat) -> nat {
    pop(nat_and(row, v)) % 2
}

/// The shifted fold of the parity bits of `rows` against `v`: one bit per
/// row, the first row's bit ending up most significant, everything shifted
/// left once more at the end so that bit zero stays clear.
pub open spec fn mfold(rows: Seq<nat>, v: nat) -> nat
    decreases rows.len(),
{
    if rows.len() == 0 {
        0
    } else {
        2 * (mfold(rows.drop_last(), v) + row_parity(rows.last(), v))
    }
}

/// The parity-matrix product: the fold plus its own parity in bit zero.
pub open spec fn mproduct(rows: Seq<nat>, v: nat) -> nat {
    mfold(rows, v) + pop(mfold(rows, v)) % 2
}

/// The syndrome of the single-bit error at position `e`.
pub open spec fn syndrome_of(m: nat, e: nat) -> nat {
    mproduct(spec_rows(m), pow2(e))
}

/// The fold is even and bounded by the width of the check field.
pub proof fn lemma_mfold_bound(rows: Seq<nat>, v: nat)
    ensures
        mfold(rows, v) % 2 == 0,
        mfold(rows, v) + 2 <= pow2(rows.len() + 1),
    decreases rows.len(),
{
    lemma_p2(rows.len() + 1);
    if rows.len() == 0 {
        lemma_p2(1);
        lemma_p2(0);
    } else {
        lemma_mfold_bound(rows.drop_last(), v);
        assert(pow2(rows.len() + 1) == 2 * pow2(rows.len()));
        assert(rows.drop_last().len() + 1 == rows.len());
    }
}

/// The product is bounded by the width of the check field.
pub proof fn lemma_mproduct_bound(rows: Seq<nat>, v: nat)
    ensures
        mproduct(rows, v) < pow2(rows.len() + 1),
{
    lemma_mfold_bound(rows, v);
}

/// When every row is even, bit zero of the word is never selected, so the
/// product of the single bit at position zero is zero.
pub proof fn lemma_mproduct_bit0(rows: Seq<nat>)
    requires
        forall|k: int| 0 <= k < rows.len() ==> #[trigger] rows[k] % 2 == 0,
    ensures
        mproduct(rows, 1) == 0,
    decreases rows.len(),
{
    if rows.len() == 0 {
    } else {
        assert(forall|k: int|
            0 <= k < rows.drop_last().len() ==> #[trigger] rows.drop_last()[k] % 2 == 0);
        lemma_mproduct_bit0(rows.drop_last());
        let r = rows.last();
        assert(r % 2 == 0);
        if r == 0 {
            lemma_zero_ops(1);
        } else {
            assert(nat_and(r, 1) == 2 * nat_and(r / 2, 0) + 0);
            lemma_zero_ops(r / 2);
        }
        assert(row_parity(r, 1) == 0);
        assert(mfold(rows, 1) == 2 * (mfold(rows.drop_last(), 1) + 0));
        assert(mfold(rows.drop_last(), 1) + pop(mfold(rows.drop_last(), 1)) % 2 == 0);
        lemma_pop_zero(mfold(rows.drop_last(), 1));
    }
}

/// The fold is linear under exclusive-or of the word.
pub proof fn lemma_mfold_linear(rows: Seq<nat>, a: nat, b: nat)
    ensures
        mfold(rows, nat_xor(a, b)) == nat_xor(mfold(rows, a), mfold(rows, b)),
    decreases rows.len(),
{
    if rows.len() == 0 {
        lemma_zero_ops(0);
    } else {
        let t = rows.drop_last();
        let r = rows.last();
        lemma_mfold_linear(t, a, b);
        lemma_mfold_bound(t, a);
        lemma_mfold_bound(t, b);
        let sa = mfold(t, a);
        let sb = mfold(t, b);
        let pa = row_parity(r, a);
        let pb = row_parity(r, b);
        let px = row_parity(r, nat_xor(a, b));
        lemma_and_dist_xor(r, a, b);
        lemma_pop_xor_parity(nat_and(r, a), nat_and(r, b));
        assert(px == (pa + pb) % 2);
        lemma_p2(1);
        lemma_ops_chunk(sa / 2, pa, sb / 2, pb, 1);
        assert(sa + pa == (sa / 2) * pow2(1) + pa && sb + pb == (sb / 2) * pow2(1) + pb);
        assert(nat_xor(sa + pa, sb + pb) == nat_xor(sa / 2, sb / 2) * 2 + nat_xor(pa, pb));
        assert(nat_xor(pa, pb) == px) by {
            assert(nat_xor(0, 0) == 0 && nat_xor(0, 1) == 2 * nat_xor(0, 0) + 1 && nat_xor(1, 0)
                == 2 * nat_xor(0, 0) + 1 && nat_xor(1, 1) == 2 * nat_xor(0, 0) + 0);
        }
        let fa = 2 * (sa + pa);
        let fb = 2 * (sb + pb);
        if fa == 0 && fb == 0 {
            assert(sa + pa == 0 && sb + pb == 0);
            assert(mfold(rows, nat_xor(a, b)) == 2 * (nat_xor(sa, sb) + px));
        } else {
            assert(nat_xor(fa, fb) == 2 * nat_xor(fa / 2, fb / 2) + 0);
            assert(fa / 2 == sa + pa && fb / 2 == sb + pb);
            assert(nat_xor(sa, sb) == 2 * nat_xor(sa / 2, sb / 2) + 0) by {
                if sa == 0 && sb == 0 {
                    lemma_zero_ops(0);
                } else {
                }
            }
            assert(nat_xor(fa, fb) == 2 * (nat_xor(sa, sb) + px));
        }
    }
}

/// The product is linear under exclusive-or of the word.
pub proof fn lemma_mproduct_linear(rows: Seq<nat>, a: nat, b: nat)
    ensures
        mproduct(rows, nat_xor(a, b)) == nat_xor(mproduct(rows, a), mproduct(rows, b)),
{
    lemma_mfold_linear(rows, a, b);
    lemma_mfold_bound(rows, a);
    lemma_mfold_bound(rows, b);
    let fa = mfold(rows, a);
    let fb = mfold(rows, b);
    let fx = mfold(rows, nat_xor(a, b));
    let qa = pop(fa) % 2;
    let qb = pop(fb) % 2;
    lemma_pop_xor_parity(fa, fb);
    assert(pop(fx) % 2 == (qa + qb) % 2);
    lemma_p2(1);
    lemma_ops_chunk(fa / 2, qa, fb / 2, qb, 1);
    assert(pow2(1) == 2);
    assert(fa == 2 * (fa / 2) && fb == 2 * (fb / 2));
    assert(fa + qa == (fa / 2) * pow2(1) + qa && fb + qb == (fb / 2) * pow2(1) + qb)
        by (nonlinear_arith)
        requires
            pow2(1) == 2,
            fa == 2 * (fa / 2),
            fb == 2 * (fb / 2),
    ;
    assert(nat_xor(fa + qa, fb + qb) == nat_xor(fa / 2, fb / 2) * 2 + nat_xor(qa, qb));
    assert(nat_xor(qa, qb) == (qa + qb) % 2) by {
        assert(nat_xor(0, 0) == 0 && nat_xor(0, 1) == 2 * nat_xor(0, 0) + 1 && nat_xor(1, 0) == 2
            * nat_xor(0, 0) + 1 && nat_xor(1, 1) == 2 * nat_xor(0, 0) + 0);
    }
    assert(nat_xor(fa, fb) == 2 * nat_xor(fa / 2, fb / 2)) by {
        if fa == 0 && fb == 0 {
            lemma_zero_ops(0);
        } else {
            assert(nat_xor(fa, fb) == 2 * nat_xor(fa / 2, fb / 2) + 0);
        }
    }
    assert(fx == nat_xor(fa, fb));
}

/// On a value that fits the check field the fold reproduces the value's
/// bits above bit zero.
proof fn lemma_mfold_code(m: nat, j: int, c: nat)
    requires
        c < pow2(m + 1),
        0 <= j <= m,
    ensures
        mfold(spec_rows(m).take(j), c) == 2 * (c / pow2((m + 1 - j) as nat)),
    decreases j,
{
    let rows = spec_rows(m);
    if j == 0 {
        assert(rows.take(0).len() == 0);
        vstd::arithmetic::div_mod::lemma_basic_div(c as int, pow2(m + 1) as int);
    } else {
        lemma_mfold_code(m, j - 1, c);
        assert(rows.take(j).drop_last() == rows.take(j - 1));
        assert(rows.take(j).last() == rows[j - 1]);
        let k = j - 1;
        let h = rows_upto(m, pow2(m))[k];
        lemma_spec_rows_structure(m, k);
        assert(rows[k] == h * pow2(m + 1) + pow2((m - k) as nat));
        vstd::arithmetic::power2::lemma_pow2_strictly_increases((m - k) as nat, m + 1);
        lemma_ops_chunk(h, pow2((m - k) as nat), 0, c, m + 1);
        lemma_zero_ops(h);
        lemma_zero_ops(c);
        assert(nat_and(rows[k], c) == nat_and(pow2((m - k) as nat), c));
        lemma_and_pow2(c, (m - k) as nat);
        let bit = (c / pow2((m - k) as nat)) % 2;
        assert(nat_and(rows[k], c) == pow2((m - k) as nat) * bit);
        if bit == 1 {
            lemma_pop_pow2((m - k) as nat);
            assert(pow2((m - k) as nat) * 1 == pow2((m - k) as nat));
            assert(row_parity(rows[k], c) == 1);
        } else {
            assert(pow2((m - k) as nat) * 0 == 0);
            assert(pop(0) == 0);
            assert(row_parity(rows[k], c) == 0);
        }
        assert(row_parity(rows[k], c) == bit);
        let e = (m - k) as nat;
        lemma_p2(e + 1);
        vstd::arithmetic::div_mod::lemma_div_denominator(c as int, pow2(e) as int, 2);
        assert(c / pow2(e) / 2 == c / (pow2(e) * 2));
        assert(pow2(e) * 2 == pow2(e + 1));
        assert((m + 1 - (j - 1)) as nat == e + 1);
        assert(c / pow2(e) == 2 * (c / pow2(e) / 2) + (c / pow2(e)) % 2);
        assert(mfold(rows.take(j), c) == 2 * (mfold(rows.take(j - 1), c) + bit));
        assert(mfold(rows.take(j - 1), c) == 2 * (c / pow2(e + 1)));
    }
}

/// The product reproduces its own output: a check field computed by the
/// product is consistent with itself.
pub proof fn lemma_mproduct_code(m: nat, p: nat)
    requires
        spec_rows(m).len() == m,
    ensures
        mproduct(spec_rows(m), mproduct(spec_rows(m), p)) == mproduct(spec_rows(m), p),
{
    let rows = spec_rows(m);
    let f = mfold(rows, p);
    let q = pop(f) % 2;
    let c = mproduct(rows, p);
    lemma_mfold_bound(rows, p);
    lemma_mproduct_bound(rows, p);
    lemma_mfold_code(m, m as int, c);
    assert(rows.take(m as int) == rows);
    lemma_p2(1);
    assert(c / 2 == f / 2 + ((q + f % 2) / 2)) by {
        assert(c == f + q);
    }
    assert(c / 2 == f / 2);
    assert(f == 2 * (f / 2));
    assert(mfold(rows, c) == 2 * (c / pow2(1)));
    assert(mfold(rows, c) == f);
}

/// Position of the first occurrence of `v` in `s`, or `-1` if absent.
pub open spec fn first_match(s: Seq<nat>, v: nat) -> int
    decreases s.len(),
{
    if s.len() == 0 {
        -1
    } else if s[0] == v {
        0
    } else {
        let r = first_match(s.subrange(1, s.len() as int), v);
        if r < 0 {
            -1
        } else {
            r + 1
        }
    }
}

/// `first_match` finds the first index that holds `v`.
pub proof fn lemma_first_match_found(s: Seq<nat>, v: nat, e: int)
    requires
        0 <= e < s.len(),
        s[e] == v,
        forall|j: int| 0 <= j < e ==> s[j] != v,
    ensures
        first_match(s, v) == e,
    decreases s.len(),
{
    if e == 0 {
    } else {
        let t = s.subrange(1, s.len() as int);
        assert(forall|j: int| 0 <= j < e - 1 ==> t[j] != v);
        lemma_first_match_found(t, v, e - 1);
    }
}

/// `first_match` reports absence faithfully.
pub proof fn lemma_first_match_none(s: Seq<nat>, v: nat)
    requires
        forall|j: int| 0 <= j < s.len() ==> s[j] != v,
    ensures
        first_match(s, v) == -1,
    decreases s.len(),
{
    if s.len() > 0 {
        let t = s.subrange(1, s.len() as int);
        lemma_first_match_none(t, v);
    }
}

/// A payload with a clear check field is disjoint from any check value.
pub proof fn lemma_payload_disjoint(p: nat, c: nat, m: nat)
    requires
        nat_and(p, (pow2(m + 1) - 1) as nat) == 0,
        c < pow2(m + 1),
    ensures
        p % pow2(m + 1) == 0,
        nat_and(p, c) == 0,
        nat_or(p, c) == p + c,
        nat_xor(p, c) == p + c,
        nat_diff(p + c, (pow2(m + 1) - 1) as nat) == p,
{
    lemma_p2(m + 1);
    lemma_and_low_mask(p, m + 1);
    let ph = p / pow2(m + 1);
    vstd::arithmetic::div_mod::lemma_fundamental_div_mod(p as int, pow2(m + 1) as int);
    assert(p == ph * pow2(m + 1) + 0);
    lemma_ops_chunk(ph, 0, 0, c, m + 1);
    lemma_zero_ops(ph);
    lemma_zero_ops(c);
    assert(nat_and(p, c) == nat_and(ph, 0) * pow2(m + 1) + nat_and(0, c));
    lemma_disjoint_or(p, c);
    lemma_diff_low_mask(ph, c, m + 1);
    assert(p + c == ph * pow2(m + 1) + c);
}

/// The `t`-th most recently enumerated column value: among `1..=i`, the
/// qualifying value (two or more set bits) that exactly `t` later
/// qualifying values follow.
pub open spec fn qval(i: nat, t: nat) -> nat
    decreases i,
{
    if i == 0 {
        0
    } else if pop(i) >= 2 {
        if t == 0 {
            i
        } else {
            qval((i - 1) as nat, (t - 1) as nat)
        }
    } else {
        qval((i - 1) as nat, t)
    }
}

/// Every enumerated column value is a qualifying value in range.
proof fn lemma_qval_props(i: nat, t: nat)
    requires
        t < w2count(i),
    ensures
        1 <= qval(i, t) <= i,
        pop(qval(i, t)) >= 2,
    decreases i,
{
    if pop(i) >= 2 {
        if t == 0 {
        } else {
            lemma_qval_props((i - 1) as nat, (t - 1) as nat);
        }
    } else {
        lemma_qval_props((i - 1) as nat, t);
    }
}

/// Earlier-enumerated column values are strictly larger.
proof fn lemma_qval_decreasing(i: nat, t1: nat, t2: nat)
    requires
        t1 < t2 < w2count(i),
    ensures
        qval(i, t1) > qval(i, t2),
    decreases i,
{
    if pop(i) >= 2 {
        if t1 == 0 {
            lemma_qval_props((i - 1) as nat, (t2 - 1) as nat);
        } else {
            lemma_qval_decreasing((i - 1) as nat, (t1 - 1) as nat, (t2 - 1) as nat);
        }
    } else {
        lemma_qval_decreasing((i - 1) as nat, t1, t2);
    }
}

/// A value below the divisor divides to zero.
proof fn lemma_div_small(x: nat, k: nat)
    requires
        x < pow2(k),
    ensures
        x / pow2(k) == 0,
{
    lemma_p2(k);
    lemma_chunk_div_mod(0, x, k);
    assert(0 * pow2(k) == 0) by (nonlinear_arith);
}

/// Bit `t` of `2 * p + b` is bit `t - 1` of `p`.
proof fn lemma_bit_of_double(p: nat, b: nat, t: nat)
    requires
        b <= 1,
        t >= 1,
    ensures
        ((2 * p + b) / pow2(t)) % 2 == (p / pow2((t - 1) as nat)) % 2,
{
    lemma_p2(t);
    lemma_p2((t - 1) as nat);
    assert((2 * p + b) / 2 == p) by {
        vstd::arithmetic::div_mod::lemma_fundamental_div_mod_converse(
            (2 * p + b) as int,
            2,
            p as int,
            b as int,
        );
    }
    vstd::arithmetic::div_mod::lemma_div_denominator(
        (2 * p + b) as int,
        2,
        pow2((t - 1) as nat) as int,
    );
    assert((2 * p + b) / 2 / pow2((t - 1) as nat) == (2 * p + b) / (2 * pow2((t - 1) as nat)));
}

/// Bit `e` of `h * pow2(k) + low` is bit `e - k` of `h` when `e` reaches
/// above the low part.
proof fn lemma_bit_high(h: nat, low: nat, k: nat, e: nat)
    requires
        low < pow2(k),
        e >= k,
    ensures
        ((h * pow2(k) + low) / pow2(e)) % 2 == (h / pow2((e - k) as nat)) % 2,
{
    lemma_p2(k);
    lemma_p2(e);
    lemma_p2((e - k) as nat);
    lemma_chunk_div_mod(h, low, k);
    vstd::arithmetic::power2::lemma_pow2_adds(k, (e - k) as nat);
    vstd::arithmetic::div_mod::lemma_div_denominator(
        (h * pow2(k) + low) as int,
        pow2(k) as int,
        pow2((e - k) as nat) as int,
    );
}

/// Bit `e` of a value only depends on the value modulo any higher power.
proof fn lemma_bit_low(x: nat, k: nat, e: nat)
    requires
        e < k,
    ensures
        (x / pow2(e)) % 2 == ((x % pow2(k)) / pow2(e)) % 2,
{
    lemma_p2(k);
    lemma_p2(e);
    lemma_p2((k - e) as nat);
    lemma_p2((k - e - 1) as nat);
    let q = x / pow2(k);
    let r = x % pow2(k);
    vstd::arithmetic::div_mod::lemma_fundamental_div_mod(x as int, pow2(k) as int);
    assert(x == pow2(k) * q + r);
    vstd::arithmetic::power2::lemma_pow2_adds(e, (k - e) as nat);
    let rq = r / pow2(e);
    let rr = r % pow2(e);
    vstd::arithmetic::div_mod::lemma_fundamental_div_mod(r as int, pow2(e) as int);
    assert(r == pow2(e) * rq + rr);
    assert(x == (q * pow2((k - e) as nat) + rq) * pow2(e) + rr) by (nonlinear_arith)
        requires
            x == pow2(k) * q + r,
            r == pow2(e) * rq + rr,
            pow2(k) == pow2(e) * pow2((k - e) as nat),
    ;
    vstd::arithmetic::div_mod::lemma_mod_division_less_than_divisor(r as int, pow2(e) as int);
    lemma_chunk_div_mod(q * pow2((k - e) as nat) + rq, rr, e);
    assert(x / pow2(e) == q * pow2((k - e) as nat) + rq);
    assert(q * pow2((k - e) as nat) == 2 * (q * pow2((k - e - 1) as nat))) by (nonlinear_arith)
        requires
            pow2((k - e) as nat) == 2 * pow2((k - e - 1) as nat),
    ;
    vstd::arithmetic::div_mod::lemma_mod_multiples_vanish(
        (q * pow2((k - e - 1) as nat)) as int,
        rq as int,
        2,
    );
}

/// `nat_and` does not depend on the order of its operands.
proof fn lemma_nat_and_comm(a: nat, b: nat)
    ensures
        nat_and(a, b) == nat_and(b, a),
    decreases a + b,
{
    if a == 0 && b == 0 {
    } else {
        lemma_nat_and_comm(a / 2, b / 2);
    }
}

/// The parity that one row contributes against a single-bit word is that
/// row's bit at the error position.
proof fn lemma_row_parity_single(row: nat, e: nat)
    ensures
        row_parity(row, pow2(e)) == (row / pow2(e)) % 2,
{
    lemma_nat_and_comm(row, pow2(e));
    lemma_and_pow2(row, e);
    let bit = (row / pow2(e)) % 2;
    if bit == 1 {
        assert(pow2(e) * 1 == pow2(e));
        lemma_pop_pow2(e);
    } else {
        assert(pow2(e) * 0 == 0);
        assert(pop(0) == 0);
    }
}

/// Bit `b` of a power of two: set exactly at its own exponent.
proof fn lemma_pow2_bit(a: nat, b: nat)
    ensures
        (pow2(a) / pow2(b)) % 2 == (if a == b {
            1nat
        } else {
            0nat
        }),
{
    if b > a {
        vstd::arithmetic::power2::lemma_pow2_strictly_increases(a, b);
        lemma_div_small(pow2(a), b);
    } else {
        vstd::arithmetic::power2::lemma_pow2_subtracts(b, a);
        assert(pow2(a) / pow2(b) == pow2((a - b) as nat));
        if a == b {
            lemma_p2(0);
        } else {
            lemma_p2((a - b) as nat);
        }
    }
}

/// Doubling does not change the number of set bits.
proof fn lemma_pop_double(q: nat)
    ensures
        pop(2 * q) == pop(q),
{
    if q != 0 {
        assert((2 * q) % 2 == 0 && (2 * q) / 2 == q);
    }
}

/// A value with two or more set bits is at least three.
proof fn lemma_pop_ge2(x: nat)
    requires
        pop(x) >= 2,
    ensures
        x >= 3,
{
    assert(pop(0) == 0);
    assert(pop(1) == 1nat % 2 + pop(1nat / 2));
    assert(pop(2) == 2nat % 2 + pop(2nat / 2));
}

/// Bit `t` of a first-pass row is bit `m - 1 - k` of the `t`-th
/// most recently enumerated column value.
proof fn lemma_rows_upto_bits(m: nat, i: nat, k: int, t: nat)
    requires
        0 <= k < m,
    ensures
        t < w2count(i) ==> (rows_upto(m, i)[k] / pow2(t)) % 2 == (qval(i, t) / pow2(
            (m - 1 - k) as nat,
        )) % 2,
        t >= w2count(i) ==> (rows_upto(m, i)[k] / pow2(t)) % 2 == 0,
    decreases i,
{
    lemma_rows_upto_bound(m, i, k);
    if t >= w2count(i) {
        if w2count(i) < t {
            vstd::arithmetic::power2::lemma_pow2_strictly_increases(w2count(i), t);
        }
        lemma_div_small(rows_upto(m, i)[k], t);
    } else {
        if pop(i) < 2 {
            lemma_rows_upto_bits(m, (i - 1) as nat, k, t);
        } else {
            let prev = rows_upto(m, (i - 1) as nat)[k];
            let b = (i / pow2((m - 1 - k) as nat)) % 2;
            assert(rows_upto(m, i)[k] == 2 * prev + b);
            if t == 0 {
                lemma_p2(0);
                assert((2 * prev + b) / pow2(0) == 2 * prev + b);
                assert((2 * prev + b) % 2 == b);
            } else {
                lemma_rows_upto_bits(m, (i - 1) as nat, k, (t - 1) as nat);
                lemma_bit_of_double(prev, b, t);
            }
        }
    }
}

/// The fold of bit-parities reassembles the value whose bits they are.
proof fn lemma_mfold_bits(m: nat, j: int, w: nat, q: nat)
    requires
        0 <= j <= m,
        q < pow2(m),
        forall|k: int|
            0 <= k < m ==> row_parity(#[trigger] spec_rows(m)[k], w) == (q / pow2(
                (m - 1 - k) as nat,
            )) % 2,
    ensures
        mfold(spec_rows(m).take(j), w) == 2 * (q / pow2((m - j) as nat)),
    decreases j,
{
    let rows = spec_rows(m);
    if j == 0 {
        assert(rows.take(0).len() == 0);
        lemma_div_small(q, m);
    } else {
        lemma_mfold_bits(m, j - 1, w, q);
        assert(rows.take(j).drop_last() =~= rows.take(j - 1));
        assert(rows.take(j).last() == rows[j - 1]);
        let e = (m - j) as nat;
        lemma_p2(e);
        lemma_p2(e + 1);
        vstd::arithmetic::div_mod::lemma_div_denominator(q as int, pow2(e) as int, 2);
        assert(q / pow2(e) / 2 == q / (pow2(e) * 2));
        assert(pow2(e) * 2 == pow2(e + 1));
        assert((m - (j - 1)) as nat == e + 1);
        assert(q / pow2(e) == 2 * (q / pow2(e) / 2) + (q / pow2(e)) % 2);
        assert(row_parity(rows[j - 1], w) == (q / pow2(e)) % 2);
    }
}

/// What each syndrome is: zero for the overall parity bit, a dedicated
/// two-bit pattern for each check bit, and twice the enumerated column
/// value plus its fold parity for each payload bit.
pub proof fn lemma_syndrome_characterization(m: nat, e: nat)
    requires
        1 <= m,
        e <= m + w2count(pow2(m)),
    ensures
        e == 0 ==> syndrome_of(m, e) == 0,
        1 <= e <= m ==> syndrome_of(m, e) == pow2(e) + 1,
        m < e ==> syndrome_of(m, e) == 2 * qval(pow2(m), (e - m - 1) as nat) + pop(
            qval(pow2(m), (e - m - 1) as nat),
        ) % 2,
{
    let rows = spec_rows(m);
    assert(rows.len() == m);
    if e == 0 {
        assert(forall|k: int| 0 <= k < m ==> #[trigger] rows[k] % 2 == 0) by {
            assert forall|k: int| 0 <= k < m implies #[trigger] rows[k] % 2 == 0 by {
                lemma_spec_rows_structure(m, k);
            }
        }
        lemma_mproduct_bit0(rows);
        lemma_p2(0);
    } else if e <= m {
        let q = pow2((e - 1) as nat);
        assert(forall|k: int|
            0 <= k < m ==> row_parity(#[trigger] rows[k], pow2(e)) == (q / pow2(
                (m - 1 - k) as nat,
            )) % 2) by {
            assert forall|k: int|
                0 <= k < m implies row_parity(#[trigger] rows[k], pow2(e)) == (q / pow2(
                (m - 1 - k) as nat,
            )) % 2 by {
                lemma_spec_rows_structure(m, k);
                lemma_row_parity_single(rows[k], e);
                let h = rows_upto(m, pow2(m))[k];
                assert(rows[k] == h * pow2(m + 1) + pow2((m - k) as nat));
                vstd::arithmetic::power2::lemma_pow2_strictly_increases((m - k) as nat, m + 1);
                lemma_bit_low(rows[k], m + 1, e);
                assert(rows[k] % pow2(m + 1) == pow2((m - k) as nat));
                lemma_pow2_bit((m - k) as nat, e);
                lemma_pow2_bit((e - 1) as nat, (m - 1 - k) as nat);
            }
        }
        if e - 1 < m {
            vstd::arithmetic::power2::lemma_pow2_strictly_increases((e - 1) as nat, m);
        }
        lemma_mfold_bits(m, m as int, pow2(e), q);
        assert(rows.take(m as int) =~= rows);
        lemma_p2(0);
        lemma_p2(e);
        vstd::arithmetic::div_mod::lemma_div_basics_2(q as int);
        assert(q / pow2(0) == q);
        assert(mfold(rows, pow2(e)) == 2 * q);
        assert(2 * q == pow2(e));
        lemma_pop_pow2(e);
        assert(syndrome_of(m, e) == pow2(e) + pop(pow2(e)) % 2);
    } else {
        let t = (e - m - 1) as nat;
        lemma_qval_props(pow2(m), t);
        let q = qval(pow2(m), t);
        lemma_pop_pow2(m);
        assert(q < pow2(m)) by {
            if q == pow2(m) {
                assert(pop(q) == 1);
            }
        }
        assert(forall|k: int|
            0 <= k < m ==> row_parity(#[trigger] rows[k], pow2(e)) == (q / pow2(
                (m - 1 - k) as nat,
            )) % 2) by {
            assert forall|k: int|
                0 <= k < m implies row_parity(#[trigger] rows[k], pow2(e)) == (q / pow2(
                (m - 1 - k) as nat,
            )) % 2 by {
                lemma_spec_rows_structure(m, k);
                lemma_row_parity_single(rows[k], e);
                let h = rows_upto(m, pow2(m))[k];
                assert(rows[k] == h * pow2(m + 1) + pow2((m - k) as nat));
                vstd::arithmetic::power2::lemma_pow2_strictly_increases((m - k) as nat, m + 1);
                lemma_bit_high(h, pow2((m - k) as nat), m + 1, e);
                lemma_rows_upto_bits(m, pow2(m), k, t);
            }
        }
        lemma_mfold_bits(m, m as int, pow2(e), q);
        assert(rows.take(m as int) =~= rows);
        lemma_p2(0);
        vstd::arithmetic::div_mod::lemma_div_basics_2(q as int);
        assert(q / pow2(0) == q);
        assert(mfold(rows, pow2(e)) == 2 * q);
        lemma_pop_double(q);
        assert(syndrome_of(m, e) == 2 * q + pop(2 * q) % 2);
    }
}

/// The syndromes of all covered single-bit error positions are pairwise
/// distinct: the construction can always tell two single-bit errors apart.
pub proof fn lemma_syndromes_always_distinct(m: nat, size: nat)
    requires
        is_code_width(size, m),
    ensures
        syndromes_distinct(m, size),
{
    lemma_w2count_pow2(m);
    assert forall|i: nat, j: nat|
        #![trigger syndrome_of(m, i), syndrome_of(m, j)]
        i < j <= size + m implies syndrome_of(m, i) != syndrome_of(m, j) by {
        assert(size + m <= m + w2count(pow2(m)));
        lemma_syndrome_characterization(m, i);
        lemma_syndrome_characterization(m, j);
        if j <= m {
            // two check-bit syndromes
            if i >= 1 {
                if syndrome_of(m, i) == syndrome_of(m, j) {
                    vstd::arithmetic::power2::lemma_pow2_strictly_increases(i, j);
                }
            } else {
                lemma_p2(j);
            }
        } else {
            let tj = (j - m - 1) as nat;
            lemma_qval_props(pow2(m), tj);
            let qj = qval(pow2(m), tj);
            lemma_pop_ge2(qj);
            if i == 0 {
                // zero against a payload syndrome of at least six
            } else if i <= m {
                // a check-bit syndrome against a payload syndrome
                if syndrome_of(m, i) == syndrome_of(m, j) {
                    lemma_p2(i);
                    assert(pow2(i) % 2 == 0);
                    assert(pop(qj) % 2 == 1);
                    assert(2 * qj == pow2(i));
                    assert(qj == pow2((i - 1) as nat));
                    lemma_pop_pow2((i - 1) as nat);
                }
            } else {
                // two payload syndromes
                let ti = (i - m - 1) as nat;
                lemma_qval_props(pow2(m), ti);
                let qi = qval(pow2(m), ti);
                if syndrome_of(m, i) == syndrome_of(m, j) {
                    assert(2 * qi + pop(qi) % 2 == 2 * qj + pop(qj) % 2);
                    assert(qi == qj);
                    lemma_qval_decreasing(pow2(m), ti, tj);
                }
            }
        }
    }
}

/// An encoded word still fits the covered bits: payload plus check field
/// stays below `pow2(size + m + 1)`.
pub proof fn lemma_encoded_bound(m: nat, size: nat, v: nat, c: nat)
    requires
        v % pow2(m + 1) == 0,
        v < pow2(size + m + 1),
        c < pow2(m + 1),
    ensures
        v + c < pow2(size + m + 1),
{
    let kk = pow2(m + 1);
    let tt = pow2(size + m + 1);
    lemma_p2(m + 1);
    vstd::arithmetic::power2::lemma_pow2_adds(size, m + 1);
    assert(tt == pow2(size) * kk);
    let ph = v / kk;
    vstd::arithmetic::div_mod::lemma_fundamental_div_mod(v as int, kk as int);
    assert(v == ph * kk);
    assert(ph < pow2(size)) by (nonlinear_arith)
        requires
            v == ph * kk,
            v < tt,
            tt == pow2(size) * kk,
            kk > 0,
    ;
    assert(ph * kk + c < pow2(size) * kk) by (nonlinear_arith)
        requires
            ph < pow2(size),
            c < kk,
            kk > 0,
    ;
}

/// Round trip: the product of a correctly encoded word is zero, and
/// clearing the check field recovers the payload.
pub proof fn lemma_encode_consistent(m: nat, p: nat)
    requires
        spec_rows(m).len() == m,
        nat_and(p, (pow2(m + 1) - 1) as nat) == 0,
    ensures
        mproduct(spec_rows(m), nat_or(p, mproduct(spec_rows(m), p))) == 0,
        nat_diff(nat_or(p, mproduct(spec_rows(m), p)), (pow2(m + 1) - 1) as nat) == p,
{
    let rows = spec_rows(m);
    let c = mproduct(rows, p);
    lemma_mproduct_bound(rows, p);
    lemma_payload_disjoint(p, c, m);
    assert(nat_or(p, c) == nat_xor(p, c));
    lemma_mproduct_linear(rows, p, c);
    lemma_mproduct_code(m, p);
    assert(mproduct(rows, nat_xor(p, c)) == nat_xor(c, c));
    lemma_xor_involution(0, c);
    lemma_zero_ops(c);
    assert(nat_xor(c, c) == 0);
}

} // verus!
