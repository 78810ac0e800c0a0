//! An arbitrary-width big-endian unsigned integer over a byte vector.
//!
//! Two byte vectors of different lengths may represent the same number;
//! equality and ordering go by the numeric value `be_val`, never by the
//! stored length. Every operation's contract is stated over that value.

use vstd::prelude::*;
use vstd::arithmetic::power2::pow2;
use crate::bits::{nat_xor, nat_and, nat_or, nat_diff, lemma_p2,
    lemma_zero_ops, lemma_ops_chunk,
    lemma_chunk_div_mod};
use crate::buffer::{be_val, lemma_be_val_bound, lemma_pow2_byte_consts};
use crate::bitwise::Bitwise;

verus! {

/// A variable-length big-endian unsigned integer.
#[derive(Clone, Debug, Hash)]
pub struct Bitvec(pub Vec<u8>);

impl View for Bitvec {
    type V = Seq<u8>;

    open spec fn view(&self) -> Seq<u8> {
        self.0@
    }
}

impl Bitvec {
    /// The number this vector represents.
    pub open spec fn value(&self) -> nat {
        be_val(self@)
    }
}

/// A byte sequence splits at any point into its high and low parts.
pub proof fn lemma_be_val_split(s: Seq<u8>, t: int)
    requires
        0 <= t <= s.len(),
    ensures
        be_val(s) == be_val(s.take(t)) * pow2(8 * (s.len() - t) as nat) + be_val(s.skip(t)),
    decreases s.len() - t,
{
    lemma_p2(0);
    if t == s.len() {
        assert(s.take(t) =~= s);
        assert(s.skip(t) =~= Seq::<u8>::empty());
        assert(be_val(s) * pow2(0) == be_val(s) * 1);
    } else {
        lemma_be_val_split(s.drop_last(), t);
        assert(s.drop_last().take(t) =~= s.take(t));
        assert(s.drop_last().skip(t) =~= s.skip(t).drop_last());
        assert(s.skip(t).len() > 0);
        assert(s.skip(t).last() == s.last());
        let hi = be_val(s.take(t));
        let n1 = (s.len() - 1 - t) as nat;
        vstd::arithmetic::power2::lemma_pow2_adds(8 * n1, 8);
        lemma_pow2_byte_consts();
        assert(be_val(s) == (hi * pow2(8 * n1) + be_val(s.skip(t).drop_last())) * 256 + s.last());
        assert((hi * pow2(8 * n1) + be_val(s.skip(t).drop_last())) * 256 == hi * (pow2(8 * n1)
            * 256) + be_val(s.skip(t).drop_last()) * 256) by (nonlinear_arith);
        assert(pow2(8 * n1) * 256 == pow2(8 * n1 + 8));
        assert(8 * n1 + 8 == 8 * (s.len() - t) as nat);
    }
}

/// Leading zero bytes do not change the value.
pub proof fn lemma_be_val_skip_zeros(s: Seq<u8>, t: int)
    requires
        0 <= t <= s.len(),
        forall|j: int| 0 <= j < t ==> s[j] == 0,
    ensures
        be_val(s) == be_val(s.skip(t)),
{
    lemma_be_val_split(s, t);
    lemma_zero_byte_prefix(s.take(t));
    assert(0 * pow2(8 * (s.len() - t) as nat) == 0) by (nonlinear_arith);
}

/// An all-zero byte sequence has value zero, and conversely.
pub proof fn lemma_zero_byte_prefix(s: Seq<u8>)
    ensures
        (be_val(s) == 0) == (forall|j: int| 0 <= j < s.len() ==> s[j] == 0),
    decreases s.len(),
{
    if s.len() > 0 {
        lemma_zero_byte_prefix(s.drop_last());
        if be_val(s) == 0 {
            assert(be_val(s.drop_last()) == 0 && s.last() == 0);
            assert(forall|j: int| 0 <= j < s.len() - 1 ==> s[j] == s.drop_last()[j]);
        } else {
            if forall|j: int| 0 <= j < s.len() ==> s[j] == 0 {
                assert(s.drop_last() =~= Seq::new((s.len() - 1) as nat, |j: int| 0u8));
                assert(forall|j: int| 0 <= j < s.len() - 1 ==> s.drop_last()[j] == 0);
                assert(be_val(s.drop_last()) == 0);
                assert(s.last() == 0);
            }
        }
    }
}

impl Bitvec {
    /// Builds the vector from bytes, dropping any leading zero bytes, as
    /// the canonical representation of the number they spell.
    pub fn from_bytes(data: &[u8]) -> (r: Bitvec)
        ensures
            r.value() == be_val(data@),
            r@.len() == 0 || r@[0] != 0,
            r@.len() <= data@.len(),
    {
        let n = data.len();
        let mut start: usize = 0;
        while start < n && data[start] == 0
            invariant
                start <= n,
                n == data@.len(),
                forall|j: int| 0 <= j < start ==> data@[j] == 0,
            decreases n - start,
        {
            start = start + 1;
        }
        let mut out: Vec<u8> = Vec::new();
        let mut i: usize = start;
        while i < n
            invariant
                start <= i <= n,
                n == data@.len(),
                out@ == data@.subrange(start as int, i as int),
            decreases n - i,
        {
            let b = data[i];
            out.push(b);
            proof {
                assert(out@ =~= data@.subrange(start as int, i + 1));
            }
            i = i + 1;
        }
        proof {
            assert(out@ == data@.skip(start as int));
            lemma_be_val_skip_zeros(data@, start as int);
            if out@.len() > 0 {
                assert(out@[0] == data@[start as int]);
            }
        }
        Bitvec(out)
    }

    /// Whether every stored byte is zero, that is, whether the value is
    /// zero.
    pub fn is_null(&self) -> (r: bool)
        ensures
            r == (self.value() == 0),
    {
        let n = self.0.len();
        let mut i: usize = 0;
        while i < n
            invariant
                i <= n,
                n == self@.len(),
                forall|j: int| 0 <= j < i ==> self@[j] == 0,
            decreases n - i,
        {
            if self.0[i] != 0 {
                proof {
                    lemma_zero_byte_prefix(self@);
                }
                return false;
            }
            i = i + 1;
        }
        proof {
            lemma_zero_byte_prefix(self@);
        }
        true
    }

    /// The vector's low 64 bits as one machine integer.
    pub fn to_u64_be(&self) -> (r: u64)
        ensures
            r as nat == self.value() % pow2(64),
    {
        let n = self.0.len();
        let mut r: u64 = 0;
        let mut i: usize = 0;
        proof {
            lemma_p2(0);
            lemma_pow2_byte_consts();
            assert(self@.take(0) =~= Seq::<u8>::empty());
            assert(0nat % pow2(64) == 0);
        }
        while i < n
            invariant
                i <= n,
                n == self@.len(),
                r as nat == be_val(self@.take(i as int)) % pow2(64),
            decreases n - i,
        {
            let b = self.0[i];
            proof {
                lemma_pow2_byte_consts();
                assert(self@.take(i as int + 1).drop_last() == self@.take(i as int));
                assert(self@.take(i as int + 1).last() == self@[i as int]);
                let q = be_val(self@.take(i as int));
                let r0 = r;
                let b0 = b;
                assert((r0 << 8) | (b0 as u64) == (r0 as nat * 256 + b0) % 0x10000000000000000) by (bit_vector);
                lemma_mod_mul_word(q, b0 as nat);
                assert(r0 as nat == q % pow2(64));
            }
            r = (r << 8) | (b as u64);
            i = i + 1;
        }
        proof {
            assert(self@.take(n as int) == self@);
        }
        r
    }

    /// Builds the vector holding the value of one machine integer, without
    /// leading zero bytes.
    pub fn from_u64_be(val: u64) -> (r: Bitvec)
        ensures
            r.value() == val as nat,
            r@.len() == 0 || r@[0] != 0,
    {
        let mut bytes: Vec<u8> = Vec::new();
        let mut v: u64 = val;
        proof {
            lemma_p2(0);
            assert(bytes@.len() == 0);
            assert(be_val(bytes@) == 0);
            assert(val as nat * pow2(0) == val as nat * 1);
        }
        while v > 0
            invariant
                val as nat == v as nat * pow2(8 * bytes@.len()) + be_val(bytes@),
                v == 0 ==> (bytes@.len() == 0 || bytes@[0] != 0),
            decreases v,
        {
            let b = (v & 0xff) as u8;
            let ghost oldbytes = bytes@;
            let ghost oldv = v;
            proof {
                let v0 = oldv;
                assert((v0 & 0xff) == v0 % 256 && v0 >> 8 == v0 / 256) by (bit_vector);
            }
            bytes.insert(0, b);
            v = v >> 8;
            proof {
                assert(bytes@ =~= seq![b].add(oldbytes));
                lemma_be_val_split(bytes@, 1);
                assert(bytes@.skip(1) =~= oldbytes);
                assert(bytes@.take(1) =~= seq![b]);
                assert(be_val(seq![b]) == b as nat) by {
                    assert(seq![b].len() == 1);
                    assert(seq![b].drop_last() =~= Seq::<u8>::empty());
                    assert(be_val(seq![b].drop_last()) == 0);
                    assert(seq![b].last() == b);
                    assert(be_val(seq![b]) == be_val(seq![b].drop_last()) * 256 + (seq![b].last() as nat));
                }
                let n0 = oldbytes.len();
                vstd::arithmetic::power2::lemma_pow2_adds(8, 8 * n0);
                lemma_pow2_byte_consts();
                assert(be_val(bytes@) == (b as nat) * pow2(8 * n0) + be_val(oldbytes));
                let p = pow2(8 * n0);
                assert((256 * (v as nat) + b as nat) * p == (v as nat) * (256 * p) + (b as nat)
                    * p) by (nonlinear_arith);
                assert(oldv as nat == 256 * (v as nat) + b as nat);
                assert(256 * p == pow2(8 * bytes@.len()));
                if v == 0 {
                    assert(oldv as nat == b as nat);
                    assert(b != 0);
                }
            }
        }
        proof {
            lemma_p2(8 * bytes@.len());
            assert(0 * pow2(8 * bytes@.len()) == 0) by (nonlinear_arith);
        }
        Bitvec(bytes)
    }
}

/// The value of a single byte.
pub proof fn lemma_be_val_one(b: u8)
    ensures
        be_val(seq![b]) == b as nat,
{
    assert(seq![b].len() == 1);
    assert(seq![b].drop_last() =~= Seq::<u8>::empty());
    assert(be_val(seq![b].drop_last()) == 0);
    assert(seq![b].last() == b);
    assert(be_val(seq![b]) == be_val(seq![b].drop_last()) * 256 + (seq![b].last() as nat));
}

impl Bitvec {
    /// Left-pads the vector with zero bytes to at least `n` bytes; the
    /// value is unchanged.
    fn grow_to(&mut self, n: usize)
        ensures
            final(self)@.len() == (if old(self)@.len() >= n {
                old(self)@.len()
            } else {
                n as nat
            }),
            final(self).value() == old(self).value(),
            final(self)@.skip(final(self)@.len() - old(self)@.len() as int) == old(self)@,
            forall|j: int|
                0 <= j < final(self)@.len() - old(self)@.len() ==> final(self)@[j] == 0,
    {
        while self.0.len() < n
            invariant
                self@.len() >= old(self)@.len(),
                self@.len() <= (if old(self)@.len() >= n {
                    old(self)@.len()
                } else {
                    n as nat
                }),
                self@.skip(self@.len() - old(self)@.len() as int) =~= old(self)@,
                forall|j: int| 0 <= j < self@.len() - old(self)@.len() ==> self@[j] == 0,
            decreases n - self@.len(),
        {
            let ghost prev = self@;
            self.0.insert(0, 0);
            proof {
                assert(self@ =~= seq![0u8].add(prev));
                assert(self@.skip(self@.len() - old(self)@.len() as int) =~= old(self)@);
            }
        }
        proof {
            lemma_be_val_skip_zeros(self@, self@.len() - old(self)@.len() as int);
        }
    }

    /// Exclusive-or with another vector, in place, aligned at the least
    /// significant byte; the vector grows to the wider operand.
    pub fn xor_assign(&mut self, rhs: &Bitvec)
        ensures
            final(self).value() == nat_xor(old(self).value(), rhs.value()),
            final(self)@.len() == (if old(self)@.len() >= rhs@.len() {
                old(self)@.len()
            } else {
                rhs@.len()
            }),
    {
        let ghost orig = *self;
        let m = rhs.0.len();
        self.grow_to(m);
        let ghost padded = *self;
        let n = self.0.len();
        let mut j: usize = 0;
        proof {
            assert(self@.skip(n as int) =~= Seq::<u8>::empty());
            assert(padded@.skip(n as int) =~= Seq::<u8>::empty());
            assert(rhs@.skip(m as int) =~= Seq::<u8>::empty());
            lemma_zero_ops(0);
        }
        while j < m
            invariant
                j <= m <= n,
                n == self@.len(),
                n == padded@.len(),
                m == rhs@.len(),
                forall|t: int| 0 <= t < n - j ==> self@[t] == padded@[t],
                be_val(self@.skip(n - j)) == nat_xor(
                    be_val(padded@.skip(n - j)),
                    be_val(rhs@.skip(m - j)),
                ),
            decreases m - j,
        {
            let a = self.0[n - 1 - j];
            let ghost aref = padded@[n - 1 - j as int];
            let b = rhs.0[m - 1 - j];
            let ghost presuf = self@.skip(n - j);
            self.0[n - 1 - j] = a ^ b;
            j = j + 1;
            proof {
                assert(a == aref);
                lemma_zip_suffix_facts(self@, padded@, rhs@, n as int, m as int, j as int);
                let psv = be_val(padded@.skip(n - j + 1));
                let rsv = be_val(rhs@.skip(m - j + 1));
                crate::bits::lemma_ops_chunk(
                    aref as nat,
                    psv,
                    b as nat,
                    rsv,
                    (8 * (j - 1)) as nat,
                );
                crate::bits::lemma_u8_xor(aref, b);
                assert(self@.skip(n - j) =~= seq![(a ^ b)].add(presuf));
                lemma_be_val_split(self@.skip(n - j), 1);
                assert(self@.skip(n - j).take(1) =~= seq![(a ^ b)]);
                assert(self@.skip(n - j).skip(1) =~= presuf);
                lemma_be_val_one(a ^ b);
            }
        }
        proof {
            lemma_zip_final_facts(self@, padded@, rhs@, n as int, m as int);
            let hv = be_val(padded@.take(n - m));
            crate::bits::lemma_ops_chunk(hv, be_val(padded@.skip(n - m)), 0, be_val(rhs@), (8
                * m) as nat);
            lemma_zero_ops(hv);
            lemma_zero_ops(be_val(rhs@));
            assert(self@.take(n - m) =~= padded@.take(n - m));
            lemma_be_val_split(self@, n - m);
            lemma_be_val_split(padded@, n - m);
        }
    }

    /// Or with another vector, in place, aligned at the least significant
    /// byte; the vector grows to the wider operand.
    pub fn or_assign(&mut self, rhs: &Bitvec)
        ensures
            final(self).value() == nat_or(old(self).value(), rhs.value()),
            final(self)@.len() == (if old(self)@.len() >= rhs@.len() {
                old(self)@.len()
            } else {
                rhs@.len()
            }),
    {
        let ghost orig = *self;
        let m = rhs.0.len();
        self.grow_to(m);
        let ghost padded = *self;
        let n = self.0.len();
        let mut j: usize = 0;
        proof {
            assert(self@.skip(n as int) =~= Seq::<u8>::empty());
            assert(padded@.skip(n as int) =~= Seq::<u8>::empty());
            assert(rhs@.skip(m as int) =~= Seq::<u8>::empty());
            lemma_zero_ops(0);
        }
        while j < m
            invariant
                j <= m <= n,
                n == self@.len(),
                n == padded@.len(),
                m == rhs@.len(),
                forall|t: int| 0 <= t < n - j ==> self@[t] == padded@[t],
                be_val(self@.skip(n - j)) == nat_or(
                    be_val(padded@.skip(n - j)),
                    be_val(rhs@.skip(m - j)),
                ),
            decreases m - j,
        {
            let a = self.0[n - 1 - j];
            let ghost aref = padded@[n - 1 - j as int];
            let b = rhs.0[m - 1 - j];
            let ghost presuf = self@.skip(n - j);
            self.0[n - 1 - j] = a | b;
            j = j + 1;
            proof {
                assert(a == aref);
                lemma_zip_suffix_facts(self@, padded@, rhs@, n as int, m as int, j as int);
                let psv = be_val(padded@.skip(n - j + 1));
                let rsv = be_val(rhs@.skip(m - j + 1));
                crate::bits::lemma_ops_chunk(
                    aref as nat,
                    psv,
                    b as nat,
                    rsv,
                    (8 * (j - 1)) as nat,
                );
                crate::bits::lemma_u8_or(aref, b);
                assert(self@.skip(n - j) =~= seq![(a | b)].add(presuf));
                lemma_be_val_split(self@.skip(n - j), 1);
                assert(self@.skip(n - j).take(1) =~= seq![(a | b)]);
                assert(self@.skip(n - j).skip(1) =~= presuf);
                lemma_be_val_one(a | b);
            }
        }
        proof {
            lemma_zip_final_facts(self@, padded@, rhs@, n as int, m as int);
            let hv = be_val(padded@.take(n - m));
            crate::bits::lemma_ops_chunk(hv, be_val(padded@.skip(n - m)), 0, be_val(rhs@), (8
                * m) as nat);
            lemma_zero_ops(hv);
            lemma_zero_ops(be_val(rhs@));
            assert(self@.take(n - m) =~= padded@.take(n - m));
            lemma_be_val_split(self@, n - m);
            lemma_be_val_split(padded@, n - m);
        }
    }

    /// Clears in place every bit of this vector that is set in `rhs`,
    /// aligned at the least significant byte.
    pub fn mask_not(&mut self, rhs: &Bitvec)
        ensures
            final(self).value() == nat_diff(old(self).value(), rhs.value()),
            final(self)@.len() == old(self)@.len(),
    {
        let n = self.0.len();
        let m = rhs.0.len();
        let o = if n < m {
            n
        } else {
            m
        };
        let ghost padded = *self;
        let mut j: usize = 0;
        proof {
            assert(self@.skip(n as int) =~= Seq::<u8>::empty());
            assert(rhs@.skip(m as int) =~= Seq::<u8>::empty());
            lemma_zero_ops(0);
        }
        while j < o
            invariant
                j <= o <= n,
                o <= m,
                o == (if n < m {
                    n as int
                } else {
                    m as int
                }),
                n == self@.len(),
                n == padded@.len(),
                m == rhs@.len(),
                forall|t: int| 0 <= t < n - j ==> self@[t] == padded@[t],
                be_val(self@.skip(n - j)) == nat_diff(
                    be_val(padded@.skip(n - j)),
                    be_val(rhs@.skip(m - j)),
                ),
            decreases o - j,
        {
            let a = self.0[n - 1 - j];
            let ghost aref = padded@[n - 1 - j as int];
            let b = rhs.0[m - 1 - j];
            let ghost presuf = self@.skip(n - j);
            self.0[n - 1 - j] = a & !b;
            j = j + 1;
            proof {
                assert(a == aref);
                lemma_zip_suffix_facts(self@, padded@, rhs@, n as int, m as int, j as int);
                let psv = be_val(padded@.skip(n - j + 1));
                let rsv = be_val(rhs@.skip(m - j + 1));
                crate::bits::lemma_ops_chunk(
                    aref as nat,
                    psv,
                    b as nat,
                    rsv,
                    (8 * (j - 1)) as nat,
                );
                crate::bits::lemma_u8_diff(aref, b);
                assert(self@.skip(n - j) =~= seq![(a & !b)].add(presuf));
                lemma_be_val_split(self@.skip(n - j), 1);
                assert(self@.skip(n - j).take(1) =~= seq![(a & !b)]);
                assert(self@.skip(n - j).skip(1) =~= presuf);
                lemma_be_val_one(a & !b);
            }
        }
        proof {
            lemma_be_val_bound(padded@.skip(n - o));
            lemma_be_val_bound(rhs@.skip(m - o));
            assert(self@.take(n - o) =~= padded@.take(n - o));
            lemma_be_val_split(self@, n - o);
            lemma_be_val_split(padded@, n - o);
            lemma_be_val_split(rhs@, m - o);
            let hv = be_val(padded@.take(n - o));
            let rh = be_val(rhs@.take(m - o));
            crate::bits::lemma_ops_chunk(
                hv,
                be_val(padded@.skip(n - o)),
                rh,
                be_val(rhs@.skip(m - o)),
                (8 * o) as nat,
            );
            if n < m {
                assert(hv == 0) by {
                    assert(padded@.take(n - o) =~= Seq::<u8>::empty());
                }
                lemma_zero_ops(rh);
            } else {
                assert(rh == 0) by {
                    assert(rhs@.take(m - o) =~= Seq::<u8>::empty());
                }
                lemma_zero_ops(hv);
            }
        }
    }

    /// Clears in place every bit of the byte buffer that is set in this
    /// vector, aligned at the least significant byte.
    pub fn mask_not_buffer(&self, rhs: &mut Vec<u8>)
        ensures
            be_val(final(rhs)@) == nat_diff(be_val(old(rhs)@), self.value()),
            final(rhs)@.len() == old(rhs)@.len(),
    {
        let mut work = Bitvec(Vec::new());
        core::mem::swap(&mut work.0, rhs);
        work.mask_not(self);
        core::mem::swap(&mut work.0, rhs);
    }

    /// And with another vector: the result keeps the overlap of the two,
    /// aligned at the least significant byte.
    pub fn and(&self, rhs: &Bitvec) -> (r: Bitvec)
        ensures
            r.value() == nat_and(self.value(), rhs.value()),
            r@.len() == (if self@.len() < rhs@.len() {
                self@.len()
            } else {
                rhs@.len()
            }),
    {
        let n = self.0.len();
        let m = rhs.0.len();
        let o = if n < m {
            n
        } else {
            m
        };
        let mut out: Vec<u8> = Vec::new();
        let mut i: usize = 0;
        while i < o
            invariant
                i <= o <= n,
                o <= m,
                n == self@.len(),
                m == rhs@.len(),
                out@.len() == i,
                forall|t: int|
                    0 <= t < i ==> out@[t] == (self@[n - o + t] & rhs@[m - o + t]),
            decreases o - i,
        {
            let b = self.0[n - o + i] & rhs.0[m - o + i];
            out.push(b);
            i = i + 1;
        }
        proof {
            lemma_and_zip_value(out@, self@, rhs@, o as int);
        }
        Bitvec(out)
    }

    /// And of the least significant byte with a machine byte.
    pub fn and_u8(&self, rhs: u8) -> (r: u8)
        ensures
            r as nat == nat_and(self.value(), rhs as nat),
    {
        let n = self.0.len();
        if n == 0 {
            proof {
                lemma_zero_ops(rhs as nat);
            }
            0
        } else {
            let a = self.0[n - 1];
            proof {
                lemma_be_val_split(self@, n - 1);
                assert(self@.skip(n - 1) =~= seq![a]);
                lemma_be_val_one(a);
                lemma_pow2_byte_consts();
                crate::bits::lemma_ops_chunk(
                    be_val(self@.take(n - 1)),
                    a as nat,
                    0,
                    rhs as nat,
                    8,
                );
                lemma_zero_ops(be_val(self@.take(n - 1)));
                lemma_zero_ops(rhs as nat);
                crate::bits::lemma_u8_and(a, rhs);
                assert(nat_and(be_val(self@.take(n - 1)), 0) == 0);
                assert(0nat * pow2(8) == 0) by (nonlinear_arith);
            }
            a & rhs
        }
    }
}

impl Bitvec {
    /// Bit `n` of the value, counted from the least significant end.
    pub fn nth_bit_from_right(&self, n: usize) -> (r: u8)
        requires
            n < 8 * self@.len(),
        ensures
            r as nat == (self.value() / pow2(n as nat)) % 2,
    {
        let t = n / 8;
        let b = n % 8;
        let len = self.0.len();
        let byte = self.0[len - 1 - t];
        proof {
            let v = self.value();
            let cut = len - t;
            lemma_be_val_split(self@, cut as int);
            lemma_be_val_bound(self@.skip(cut as int));
            let w = be_val(self@.take(cut as int));
            lemma_chunk_div_mod(w, be_val(self@.skip(cut as int)), (8 * t) as nat);
            lemma_p2((8 * t) as nat);
            lemma_p2(b as nat);
            lemma_p2((8 - b) as nat);
            vstd::arithmetic::power2::lemma_pow2_adds((8 * t) as nat, b as nat);
            vstd::arithmetic::div_mod::lemma_div_denominator(
                v as int,
                pow2((8 * t) as nat) as int,
                pow2(b as nat) as int,
            );
            assert(v / pow2(n as nat) == w / pow2(b as nat));
            assert(self@.take(cut as int).last() == self@[cut - 1]);
            assert(self@.take(cut as int).drop_last() =~= self@.take(cut - 1));
            let w1 = be_val(self@.take(cut - 1));
            assert(w == w1 * 256 + byte);
            vstd::arithmetic::div_mod::lemma_fundamental_div_mod(byte as int, pow2(b as nat) as int);
            let bq = byte as nat / pow2(b as nat);
            let br = byte as nat % pow2(b as nat);
            vstd::arithmetic::power2::lemma_pow2_adds(b as nat, (8 - b) as nat);
            lemma_pow2_byte_consts();
            assert(256 == pow2(b as nat) * pow2((8 - b) as nat));
            assert(w == (w1 * pow2((8 - b) as nat) + bq) * pow2(b as nat) + br) by (nonlinear_arith)
                requires
                    w == w1 * 256 + byte,
                    byte as nat == pow2(b as nat) * bq + br,
                    256 == pow2(b as nat) * pow2((8 - b) as nat),
            ;
            lemma_chunk_div_mod(w1 * pow2((8 - b) as nat) + bq, br, b as nat);
            assert(w / pow2(b as nat) == w1 * pow2((8 - b) as nat) + bq);
            lemma_p2((7 - b) as nat);
            vstd::arithmetic::power2::lemma_pow2_adds(1, (7 - b) as nat);
            assert(w1 * pow2((8 - b) as nat) == 2 * (w1 * pow2((7 - b) as nat))) by (nonlinear_arith)
                requires
                    pow2((8 - b) as nat) == 2 * pow2((7 - b) as nat),
            ;
            vstd::arithmetic::div_mod::lemma_mod_multiples_vanish(
                (w1 * pow2((7 - b) as nat)) as int,
                bq as int,
                2,
            );
            assert((w / pow2(b as nat)) % 2 == bq % 2);
            vstd::bits::lemma_u8_shr_is_div(byte, b as u8);
            let q0 = byte >> (b as u8);
            assert(q0 & 1 == q0 % 2) by (bit_vector);
        }
        (byte >> (b as u8)) & 1
    }

    /// The vector whose value is the single bit at position `e`.
    pub fn one_shl(e: usize) -> (r: Bitvec)
        ensures
            r.value() == pow2(e as nat),
            r@.len() == e / 8 + 1,
    {
        let t = e / 8;
        let b = e % 8;
        proof {
            vstd::bits::lemma_u8_pow2_no_overflow(b as nat);
            vstd::bits::lemma_u8_shl_is_mul(1u8, b as u8);
        }
        let mut out: Vec<u8> = Vec::new();
        out.push(1u8 << (b as u8));
        let mut i: usize = 0;
        while i < t
            invariant
                i <= t,
                out@.len() == i + 1,
                out@[0] as nat == pow2(b as nat),
                forall|j: int| 1 <= j <= i ==> out@[j] == 0,
            decreases t - i,
        {
            out.push(0);
            i = i + 1;
        }
        proof {
            lemma_be_val_split(out@, 1);
            assert(out@.take(1) =~= seq![out@[0]]);
            lemma_be_val_one(out@[0]);
            lemma_zero_byte_prefix(out@.skip(1));
            assert(forall|j: int| 0 <= j < out@.skip(1).len() ==> out@.skip(1)[j] == 0);
            vstd::arithmetic::power2::lemma_pow2_adds(b as nat, (8 * t) as nat);
            assert(b + 8 * t == e);
        }
        Bitvec(out)
    }

    /// Doubles the value in place, growing by one byte when the high bit
    /// would otherwise be lost.
    fn shl_one(&mut self)
        ensures
            final(self).value() == 2 * old(self).value(),
    {
        let n0 = self.0.len();
        if n0 == 0 {
            return ;
        }
        if self.0[0] >= 128 {
            let ghost prev = self@;
            self.0.insert(0, 0);
            proof {
                assert(self@ =~= seq![0u8].add(prev));
                lemma_be_val_skip_zeros(self@, 1);
                assert(self@.skip(1) =~= prev);
            }
        }
        let n = self.0.len();
        let ghost padded = self@;
        proof {
            lemma_p2(0);
            assert(self@.skip(n as int) =~= Seq::<u8>::empty());
            assert(padded.skip(n as int) =~= Seq::<u8>::empty());
            // the top byte is below 128, so the final carry vanishes
            lemma_be_val_split(padded, 1);
            assert(padded.take(1) =~= seq![padded[0]]);
            lemma_be_val_one(padded[0]);
            lemma_be_val_bound(padded.skip(1));
            vstd::arithmetic::power2::lemma_pow2_adds((8 * (n - 1)) as nat, 7);
            vstd::arithmetic::power2::lemma2_to64();
            assert((padded[0] as nat) * pow2((8 * (n - 1)) as nat) + be_val(padded.skip(1)) < 128
                * pow2((8 * (n - 1)) as nat)) by (nonlinear_arith)
                requires
                    padded[0] < 128,
                    be_val(padded.skip(1)) < pow2((8 * (n - 1)) as nat),
            ;
            assert(128 * pow2((8 * (n - 1)) as nat) == pow2(7) * pow2((8 * (n - 1)) as nat));
            vstd::arithmetic::power2::lemma_pow2_adds(7, (8 * (n - 1)) as nat);
            assert(be_val(padded) < pow2((7 + 8 * (n - 1)) as nat));
        }
        let mut carry: u8 = 0;
        let mut j: usize = 0;
        while j < n
            invariant
                j <= n,
                n == self@.len(),
                n == padded.len(),
                carry <= 1,
                forall|t: int| 0 <= t < n - j ==> self@[t] == padded[t],
                2 * be_val(padded.skip(n - j)) == (carry as nat) * pow2((8 * j) as nat) + be_val(
                    self@.skip(n - j),
                ),
            decreases n - j,
        {
            let ob = self.0[n - 1 - j];
            let ghost obr = padded[n - 1 - j as int];
            let c0 = carry;
            let nb = (ob << 1u8) | c0;
            let ghost presuf = self@.skip(n - j);
            self.0[n - 1 - j] = nb;
            carry = ob >> 7u8;
            j = j + 1;
            proof {
                assert(ob == obr);
                assert(((ob << 1u8) | c0) as nat == (2 * (ob as nat) + c0) % 256 && (ob >> 7u8)
                    as nat == (2 * (ob as nat) + c0) / 256) by (bit_vector)
                    requires
                        c0 <= 1,
                ;
                assert(padded.skip(n - j) =~= seq![obr].add(padded.skip(n - j + 1)));
                lemma_be_val_split(padded.skip(n - j), 1);
                assert(padded.skip(n - j).take(1) =~= seq![obr]);
                assert(padded.skip(n - j).skip(1) =~= padded.skip(n - j + 1));
                lemma_be_val_one(obr);
                assert(self@.skip(n - j) =~= seq![nb].add(presuf));
                lemma_be_val_split(self@.skip(n - j), 1);
                assert(self@.skip(n - j).take(1) =~= seq![nb]);
                assert(self@.skip(n - j).skip(1) =~= presuf);
                lemma_be_val_one(nb);
                let p = pow2((8 * (j - 1)) as nat);
                vstd::arithmetic::power2::lemma_pow2_adds((8 * (j - 1)) as nat, 8);
                lemma_pow2_byte_consts();
                assert(pow2((8 * j) as nat) == p * 256);
                let s = be_val(presuf);
                let twoob = 2 * (obr as nat) + c0;
                vstd::arithmetic::div_mod::lemma_fundamental_div_mod(twoob as int, 256);
                assert(twoob == 256 * (twoob / 256) + twoob % 256);
                assert(2 * ((obr as nat) * p + be_val(padded.skip(n - j + 1))) == (twoob / 256)
                    * (p * 256) + (twoob % 256) * p + (2 * be_val(padded.skip(n - j + 1)) - c0
                    * p)) by (nonlinear_arith)
                    requires
                        twoob == 256 * (twoob / 256) + twoob % 256,
                        twoob == 2 * (obr as nat) + c0,
                ;
            }
        }
        proof {
            assert(self@.skip(0) =~= self@);
            assert(padded.skip(0) =~= padded);
            if carry == 1 {
                lemma_be_val_bound(self@);
                vstd::arithmetic::power2::lemma_pow2_adds(1, (7 + 8 * (n - 1)) as nat);
                lemma_p2((7 + 8 * (n - 1)) as nat);
                assert(2 * be_val(padded) < 2 * pow2((7 + 8 * (n - 1)) as nat));
                assert(2 * pow2((7 + 8 * (n - 1)) as nat) == pow2((8 * n) as nat));
                assert(false);
            }
        }
    }

    /// Shifts the value left by `rhs` bits, multiplying it by
    /// `pow2(rhs)`.
    pub fn shl_assign(&mut self, rhs: usize)
        ensures
            final(self).value() == old(self).value() * pow2(rhs as nat),
    {
        let mut i: usize = 0;
        proof {
            lemma_p2(0);
            assert(old(self).value() * 1 == old(self).value());
        }
        while i < rhs
            invariant
                i <= rhs,
                self.value() == old(self).value() * pow2(i as nat),
            decreases rhs - i,
        {
            self.shl_one();
            proof {
                lemma_p2((i + 1) as nat);
                let base = old(self).value();
                assert(2 * (base * pow2(i as nat)) == base * pow2((i + 1) as nat))
                    by (nonlinear_arith)
                    requires
                        pow2((i + 1) as nat) == 2 * pow2(i as nat),
                ;
            }
            i = i + 1;
        }
    }

    /// Halves the value in place; the stored length does not change.
    fn shr_one(&mut self)
        ensures
            final(self).value() == old(self).value() / 2,
            final(self)@.len() == old(self)@.len(),
    {
        let n = self.0.len();
        let ghost orig = self@;
        let mut borrow: u8 = 0;
        let mut j: usize = 0;
        proof {
            assert(self@.take(0) =~= Seq::<u8>::empty());
            assert(orig.take(0) =~= Seq::<u8>::empty());
        }
        while j < n
            invariant
                j <= n,
                n == self@.len(),
                n == orig.len(),
                borrow <= 1,
                forall|t: int| j <= t < n ==> self@[t] == orig[t],
                self@.take(j as int).len() == j,
                be_val(self@.take(j as int)) == be_val(orig.take(j as int)) / 2,
                borrow as nat == be_val(orig.take(j as int)) % 2,
            decreases n - j,
        {
            let ob = self.0[j];
            let ghost obr = orig[j as int];
            let b0 = borrow;
            let nb = (ob >> 1u8) | (b0 << 7u8);
            let ghost pretake = self@.take(j as int);
            self.0[j] = nb;
            borrow = ob & 1;
            j = j + 1;
            proof {
                assert(ob == obr);
                assert(((ob >> 1u8) | (b0 << 7u8)) as nat == (b0 as nat) * 128 + (ob as nat) / 2
                    && (ob & 1) as nat == (ob as nat) % 2) by (bit_vector)
                    requires
                        b0 <= 1,
                ;
                assert(self@.take(j as int) =~= pretake.push(nb));
                assert(orig.take(j as int) =~= orig.take(j - 1).push(obr));
                assert(self@.take(j as int).drop_last() =~= pretake);
                assert(orig.take(j as int).drop_last() =~= orig.take(j - 1));
                let q = be_val(orig.take(j - 1));
                vstd::arithmetic::div_mod::lemma_fundamental_div_mod(q as int, 2);
                let v = q * 256 + obr as nat;
                assert(v == (q / 2) * 512 + (q % 2) * 256 + obr) by (nonlinear_arith)
                    requires
                        q == 2 * (q / 2) + q % 2,
                        v == q * 256 + obr as nat,
                ;
                assert(v == ((q / 2) * 256 + (q % 2) * 128 + (obr as nat) / 2) * 2 + (obr as nat)
                    % 2) by (nonlinear_arith)
                    requires
                        v == (q / 2) * 512 + (q % 2) * 256 + obr,
                        obr as nat == 2 * ((obr as nat) / 2) + (obr as nat) % 2,
                ;
                vstd::arithmetic::div_mod::lemma_fundamental_div_mod_converse(
                    v as int,
                    2,
                    ((q / 2) * 256 + (q % 2) * 128 + (obr as nat) / 2) as int,
                    ((obr as nat) % 2) as int,
                );
            }
        }
        proof {
            assert(self@.take(n as int) =~= self@);
            assert(orig.take(n as int) =~= orig);
        }
    }

    /// Shifts the value right by `rhs` bits, dividing it by `pow2(rhs)`.
    pub fn shr_assign(&mut self, rhs: usize)
        ensures
            final(self).value() == old(self).value() / pow2(rhs as nat),
            final(self)@.len() == old(self)@.len(),
    {
        let mut i: usize = 0;
        proof {
            lemma_p2(0);
            vstd::arithmetic::div_mod::lemma_div_basics_1(old(self).value() as int);
        }
        while i < rhs
            invariant
                i <= rhs,
                self.value() == old(self).value() / pow2(i as nat),
                self@.len() == old(self)@.len(),
            decreases rhs - i,
        {
            self.shr_one();
            proof {
                lemma_p2(i as nat);
                lemma_p2((i + 1) as nat);
                vstd::arithmetic::div_mod::lemma_div_denominator(
                    old(self).value() as int,
                    pow2(i as nat) as int,
                    2,
                );
            }
            i = i + 1;
        }
    }

    /// Adds a machine integer to the value in place, growing as needed.
    pub fn add_u32(&mut self, rhs: u32)
        ensures
            final(self).value() == old(self).value() + rhs as nat,
    {
        let n = self.0.len();
        let ghost orig = self@;
        let mut carry: u64 = rhs as u64;
        let mut j: usize = 0;
        proof {
            lemma_p2(0);
            assert(self@.skip(n as int) =~= Seq::<u8>::empty());
            assert(orig.skip(n as int) =~= Seq::<u8>::empty());
            assert(be_val(self@.skip(n as int)) == 0);
            assert((carry as nat) * pow2(0) == carry as nat);
        }
        while j < n
            invariant
                j <= n,
                n == self@.len(),
                n == orig.len(),
                carry <= 0xffffffffu64,
                forall|t: int| 0 <= t < n - j ==> self@[t] == orig[t],
                be_val(self@.skip(n - j)) + (carry as nat) * pow2((8 * j) as nat) == be_val(
                    orig.skip(n - j),
                ) + rhs as nat,
            decreases n - j,
        {
            let ob = self.0[n - 1 - j];
            let ghost obr = orig[n - 1 - j as int];
            let c0 = carry;
            let sum: u64 = carry + (ob as u64);
            let nb = (sum & 0xff) as u8;
            let ghost presuf = self@.skip(n - j);
            self.0[n - 1 - j] = nb;
            carry = sum >> 8;
            j = j + 1;
            proof {
                assert(ob == obr);
                let s0 = sum;
                assert((s0 & 0xff) as nat == s0 as nat % 256 && (s0 >> 8) as nat == s0 as nat
                    / 256) by (bit_vector);
                assert(orig.skip(n - j) =~= seq![obr].add(orig.skip(n - j + 1)));
                lemma_be_val_split(orig.skip(n - j), 1);
                assert(orig.skip(n - j).take(1) =~= seq![obr]);
                assert(orig.skip(n - j).skip(1) =~= orig.skip(n - j + 1));
                lemma_be_val_one(obr);
                assert(self@.skip(n - j) =~= seq![nb].add(presuf));
                lemma_be_val_split(self@.skip(n - j), 1);
                assert(self@.skip(n - j).take(1) =~= seq![nb]);
                assert(self@.skip(n - j).skip(1) =~= presuf);
                lemma_be_val_one(nb);
                let p = pow2((8 * (j - 1)) as nat);
                vstd::arithmetic::power2::lemma_pow2_adds((8 * (j - 1)) as nat, 8);
                lemma_pow2_byte_consts();
                assert(pow2((8 * j) as nat) == p * 256);
                vstd::arithmetic::div_mod::lemma_fundamental_div_mod(sum as int, 256);
                assert((nb as nat) * p + ((sum as nat) / 256) * (p * 256) == ((c0 as nat) + obr)
                    * p) by (nonlinear_arith)
                    requires
                        sum as nat == 256 * ((sum as nat) / 256) + (nb as nat),
                        sum as nat == c0 as nat + obr as nat,
                ;
                assert(((c0 as nat) + obr) * p == (c0 as nat) * p + (obr as nat) * p)
                    by (nonlinear_arith);
                assert((obr as nat) * p + be_val(orig.skip(n - j + 1)) == be_val(
                    orig.skip(n - j),
                ));
            }
        }
        proof {
            assert(self@.skip(0) =~= self@);
            assert(orig.skip(0) =~= orig);
        }
        while carry > 0
            invariant
                be_val(self@) + (carry as nat) * pow2(8 * self@.len()) == be_val(orig)
                    + rhs as nat,
            decreases carry,
        {
            let b = (carry & 0xff) as u8;
            let ghost prev = self@;
            let c0 = carry;
            self.0.insert(0, b);
            carry = carry >> 8;
            proof {
                assert((c0 & 0xff) as nat == c0 as nat % 256 && (c0 >> 8) as nat == c0 as nat
                    / 256) by (bit_vector);
                assert(self@ =~= seq![b].add(prev));
                lemma_be_val_split(self@, 1);
                assert(self@.take(1) =~= seq![b]);
                assert(self@.skip(1) =~= prev);
                lemma_be_val_one(b);
                let p = pow2(8 * prev.len());
                vstd::arithmetic::power2::lemma_pow2_adds(8, 8 * prev.len());
                lemma_pow2_byte_consts();
                assert(pow2(8 * self@.len()) == 256 * p);
                vstd::arithmetic::div_mod::lemma_fundamental_div_mod(c0 as int, 256);
                assert((b as nat) * p + ((c0 as nat) / 256) * (256 * p) == (c0 as nat) * p)
                    by (nonlinear_arith)
                    requires
                        c0 as nat == 256 * ((c0 as nat) / 256) + (b as nat),
                ;
            }
        }
        proof {
            assert(0nat * pow2(8 * self@.len()) == 0) by (nonlinear_arith);
        }
    }

    /// Adds another vector's value in place, growing as needed.
    pub fn add_assign_vec(&mut self, rhs: &Bitvec)
        ensures
            final(self).value() == old(self).value() + rhs.value(),
    {
        let m = rhs.0.len();
        self.grow_to(m);
        let ghost padded = *self;
        let n = self.0.len();
        let mut carry: u64 = 0;
        let mut j: usize = 0;
        proof {
            lemma_p2(0);
            assert(self@.skip(n as int) =~= Seq::<u8>::empty());
            assert(padded@.skip(n as int) =~= Seq::<u8>::empty());
            assert(rhs@.skip(m as int) =~= Seq::<u8>::empty());
            assert(be_val(self@.skip(n as int)) == 0);
            assert((carry as nat) * pow2(0) == carry as nat);
        }
        while j < n
            invariant
                j <= n,
                m <= n,
                n == self@.len(),
                n == padded@.len(),
                m == rhs@.len(),
                carry <= 1,
                forall|t: int| 0 <= t < n - j ==> self@[t] == padded@[t],
                be_val(self@.skip(n - j)) + (carry as nat) * pow2((8 * j) as nat) == be_val(
                    padded@.skip(n - j),
                ) + (if j <= m {
                    be_val(rhs@.skip(m - j))
                } else {
                    be_val(rhs@)
                }),
            decreases n - j,
        {
            let ob = self.0[n - 1 - j];
            let ghost obr = padded@[n - 1 - j as int];
            let rb: u8 = if j < m {
                rhs.0[m - 1 - j]
            } else {
                0
            };
            let c0 = carry;
            let sum: u64 = carry + (ob as u64) + (rb as u64);
            let nb = (sum & 0xff) as u8;
            let ghost presuf = self@.skip(n - j);
            self.0[n - 1 - j] = nb;
            carry = sum >> 8;
            j = j + 1;
            proof {
                assert(ob == obr);
                let s0 = sum;
                assert((s0 & 0xff) as nat == s0 as nat % 256 && (s0 >> 8) as nat == s0 as nat
                    / 256) by (bit_vector);
                assert(padded@.skip(n - j) =~= seq![obr].add(padded@.skip(n - j + 1)));
                lemma_be_val_split(padded@.skip(n - j), 1);
                assert(padded@.skip(n - j).take(1) =~= seq![obr]);
                assert(padded@.skip(n - j).skip(1) =~= padded@.skip(n - j + 1));
                lemma_be_val_one(obr);
                assert(self@.skip(n - j) =~= seq![nb].add(presuf));
                lemma_be_val_split(self@.skip(n - j), 1);
                assert(self@.skip(n - j).take(1) =~= seq![nb]);
                assert(self@.skip(n - j).skip(1) =~= presuf);
                lemma_be_val_one(nb);
                if j <= m {
                    assert(rhs@.skip(m - j) =~= seq![rhs@[m - j]].add(rhs@.skip(m - j + 1)));
                    lemma_be_val_split(rhs@.skip(m - j), 1);
                    assert(rhs@.skip(m - j).take(1) =~= seq![rhs@[m - j]]);
                    assert(rhs@.skip(m - j).skip(1) =~= rhs@.skip(m - j + 1));
                    lemma_be_val_one(rhs@[m - j]);
                    assert(rb == rhs@[m - j]);
                } else {
                    assert(rb == 0);
                    if j - 1 == m {
                        assert(rhs@.skip(0) =~= rhs@);
                    }
                }
                let p = pow2((8 * (j - 1)) as nat);
                vstd::arithmetic::power2::lemma_pow2_adds((8 * (j - 1)) as nat, 8);
                lemma_pow2_byte_consts();
                assert(pow2((8 * j) as nat) == p * 256);
                vstd::arithmetic::div_mod::lemma_fundamental_div_mod(sum as int, 256);
                assert((nb as nat) * p + ((sum as nat) / 256) * (p * 256) == ((c0 as nat) + obr
                    + rb as nat) * p) by (nonlinear_arith)
                    requires
                        sum as nat == 256 * ((sum as nat) / 256) + (nb as nat),
                        sum as nat == c0 as nat + obr as nat + rb as nat,
                ;
                assert(((c0 as nat) + obr + rb as nat) * p == (c0 as nat) * p + (obr as nat) * p
                    + (rb as nat) * p) by (nonlinear_arith);
            }
        }
        proof {
            assert(self@.skip(0) =~= self@);
            assert(padded@.skip(0) =~= padded@);
            assert(rhs@.skip(0) =~= rhs@);
        }
        if carry > 0 {
            let b = carry as u8;
            let ghost prev = self@;
            let ghost c0 = carry;
            self.0.insert(0, b);
            proof {
                assert(self@ =~= seq![b].add(prev));
                lemma_be_val_split(self@, 1);
                assert(self@.take(1) =~= seq![b]);
                assert(self@.skip(1) =~= prev);
                lemma_be_val_one(b);
                assert(b as nat == c0 as nat);
                assert(prev.len() == n);
                assert(be_val(self@) == (c0 as nat) * pow2((8 * n) as nat) + be_val(prev));
            }
        }
    }
}

impl Bitwise for Bitvec {
    open spec fn bit_value(&self) -> nat {
        self.value()
    }

    open spec fn countable(&self) -> bool {
        self@.len() <= 0x1fffffffffffffff
    }

    fn count(&self) -> (r: u64) {
        self.0.as_slice().count()
    }

    fn parity(&self) -> (r: u64) {
        self.0.as_slice().parity()
    }
}

impl Bitvec {
    /// Orders two vectors by their numeric values, whatever their stored
    /// lengths.
    pub fn value_cmp(&self, other: &Bitvec) -> (r: core::cmp::Ordering)
        ensures
            (r == core::cmp::Ordering::Equal) == (self.value() == other.value()),
            (r == core::cmp::Ordering::Less) == (self.value() < other.value()),
            (r == core::cmp::Ordering::Greater) == (self.value() > other.value()),
    {
        let n = self.0.len();
        let m = other.0.len();
        if n > m {
            let mut j: usize = 0;
            while j < n - m
                invariant
                    j <= n - m,
                    m < n,
                    n == self@.len(),
                    m == other@.len(),
                    forall|t: int| 0 <= t < j ==> self@[t] == 0,
                decreases n - m - j,
            {
                if self.0[j] != 0 {
                    proof {
                        lemma_prefix_byte_dominates(self@, other@, j as int);
                    }
                    return core::cmp::Ordering::Greater;
                }
                j = j + 1;
            }
        } else if m > n {
            let mut j: usize = 0;
            while j < m - n
                invariant
                    j <= m - n,
                    n < m,
                    n == self@.len(),
                    m == other@.len(),
                    forall|t: int| 0 <= t < j ==> other@[t] == 0,
                decreases m - n - j,
            {
                if other.0[j] != 0 {
                    proof {
                        lemma_prefix_byte_dominates(other@, self@, j as int);
                    }
                    return core::cmp::Ordering::Less;
                }
                j = j + 1;
            }
        }
        let o = if n < m {
            n
        } else {
            m
        };
        proof {
            if n >= m {
                assert(other@.take(m - o) =~= Seq::<u8>::empty());
                lemma_zero_byte_prefix(self@.take(n - o));
                assert(forall|t: int|
                    0 <= t < n - o ==> self@.take(n - o)[t] == self@[t]);
            } else {
                assert(self@.take(n - o) =~= Seq::<u8>::empty());
                lemma_zero_byte_prefix(other@.take(m - o));
                assert(forall|t: int|
                    0 <= t < m - o ==> other@.take(m - o)[t] == other@[t]);
            }
        }
        let mut j: usize = 0;
        while j < o
            invariant
                j <= o <= n,
                o <= m,
                o == (if n < m {
                    n as int
                } else {
                    m as int
                }),
                n == self@.len(),
                m == other@.len(),
                be_val(self@.take(n - o + j)) == be_val(other@.take(m - o + j)),
            decreases o - j,
        {
            let a = self.0[n - o + j];
            let b = other.0[m - o + j];
            if a < b {
                proof {
                    lemma_aligned_byte_decides(self@, other@, o as int, j as int);
                }
                return core::cmp::Ordering::Less;
            }
            if a > b {
                proof {
                    lemma_aligned_byte_decides(other@, self@, o as int, j as int);
                }
                return core::cmp::Ordering::Greater;
            }
            proof {
                assert(self@.take(n - o + j + 1) =~= self@.take(n - o + j).push(a));
                assert(other@.take(m - o + j + 1) =~= other@.take(m - o + j).push(b));
                assert(self@.take(n - o + j + 1).drop_last() =~= self@.take(n - o + j));
                assert(other@.take(m - o + j + 1).drop_last() =~= other@.take(m - o + j));
            }
            j = j + 1;
        }
        proof {
            assert(self@.take(n as int) =~= self@);
            assert(other@.take(m as int) =~= other@);
        }
        core::cmp::Ordering::Equal
    }
}

/// A nonzero byte in the part of `a` that reaches above all of `b` makes
/// `a` the larger value.
proof fn lemma_prefix_byte_dominates(a: Seq<u8>, b: Seq<u8>, j: int)
    requires
        0 <= j < a.len() - b.len(),
        a[j] != 0,
    ensures
        be_val(a) > be_val(b),
{
    lemma_be_val_split(a, j + 1);
    lemma_zero_byte_prefix(a.take(j + 1));
    assert(a.take(j + 1)[j] == a[j]);
    assert(be_val(a.take(j + 1)) >= 1);
    let k = (8 * (a.len() - j - 1)) as nat;
    lemma_p2(k);
    assert(be_val(a) >= pow2(k)) by (nonlinear_arith)
        requires
            be_val(a) == be_val(a.take(j + 1)) * pow2(k) + be_val(a.skip(j + 1)),
            be_val(a.take(j + 1)) >= 1,
    ;
    lemma_be_val_bound(b);
    if 8 * b.len() < k {
        vstd::arithmetic::power2::lemma_pow2_strictly_increases(8 * b.len(), k);
    }
}

/// When the values of the aligned prefixes agree, the first differing
/// byte decides the order.
proof fn lemma_aligned_byte_decides(a: Seq<u8>, b: Seq<u8>, o: int, j: int)
    requires
        0 <= j < o,
        o <= a.len(),
        o <= b.len(),
        be_val(a.take(a.len() - o + j)) == be_val(b.take(b.len() - o + j)),
        a[a.len() - o + j] < b[b.len() - o + j],
    ensures
        be_val(a) < be_val(b),
{
    let ca = a.len() - o + j;
    let cb = b.len() - o + j;
    lemma_be_val_split(a, ca);
    lemma_be_val_split(b, cb);
    let k = (8 * (o - j)) as nat;
    let sa = a.skip(ca);
    let sb = b.skip(cb);
    lemma_be_val_split(sa, 1);
    lemma_be_val_split(sb, 1);
    assert(sa.take(1) =~= seq![a[ca]]);
    assert(sb.take(1) =~= seq![b[cb]]);
    lemma_be_val_one(a[ca]);
    lemma_be_val_one(b[cb]);
    lemma_be_val_bound(sa.skip(1));
    lemma_be_val_bound(sb.skip(1));
    let k1 = (8 * (o - j - 1)) as nat;
    lemma_p2(k1);
    lemma_p2(k);
    assert(sa.skip(1).len() == o - j - 1);
    assert(sb.skip(1).len() == o - j - 1);
    assert(be_val(sa) < be_val(sb)) by (nonlinear_arith)
        requires
            be_val(sa) == (a[ca] as nat) * pow2(k1) + be_val(sa.skip(1)),
            be_val(sb) == (b[cb] as nat) * pow2(k1) + be_val(sb.skip(1)),
            be_val(sa.skip(1)) < pow2(k1),
            (a[ca] as nat) < (b[cb] as nat),
    ;
    assert(be_val(a.take(ca)) * pow2(k) == be_val(b.take(cb)) * pow2(k));
}

impl PartialEq for Bitvec {
    fn eq(&self, other: &Bitvec) -> (r: bool) {
        match self.value_cmp(other) {
            core::cmp::Ordering::Equal => true,
            _ => false,
        }
    }
}

impl vstd::std_specs::cmp::PartialEqSpecImpl for Bitvec {
    open spec fn obeys_eq_spec() -> bool {
        true
    }

    open spec fn eq_spec(&self, other: &Bitvec) -> bool {
        self.value() == other.value()
    }
}

impl Eq for Bitvec {

}

impl PartialOrd for Bitvec {
    fn partial_cmp(&self, other: &Bitvec) -> (r: Option<core::cmp::Ordering>) {
        Some(self.value_cmp(other))
    }
}

impl vstd::std_specs::cmp::PartialOrdSpecImpl for Bitvec {
    open spec fn obeys_partial_cmp_spec() -> bool {
        true
    }

    open spec fn partial_cmp_spec(&self, other: &Bitvec) -> Option<core::cmp::Ordering> {
        if self.value() < other.value() {
            Some(core::cmp::Ordering::Less)
        } else if self.value() == other.value() {
            Some(core::cmp::Ordering::Equal)
        } else {
            Some(core::cmp::Ordering::Greater)
        }
    }
}

/// Suffix bookkeeping for the byte-wise loops: after `j` processed bytes
/// the three suffixes split off their leading byte, and their values are
/// bounded by the processed width.
proof fn lemma_zip_suffix_facts(cur: Seq<u8>, padded: Seq<u8>, rhs: Seq<u8>, n: int, m: int, j: int)
    requires
        1 <= j,
        j <= m,
        j <= n,
        cur.len() == n,
        padded.len() == n,
        rhs.len() == m,
    ensures
        padded.skip(n - j) =~= seq![padded[n - j]].add(padded.skip(n - j + 1)),
        rhs.skip(m - j) =~= seq![rhs[m - j]].add(rhs.skip(m - j + 1)),
        be_val(padded.skip(n - j)) == (padded[n - j] as nat) * pow2((8 * (j - 1)) as nat) + be_val(
            padded.skip(n - j + 1),
        ),
        be_val(rhs.skip(m - j)) == (rhs[m - j] as nat) * pow2((8 * (j - 1)) as nat) + be_val(
            rhs.skip(m - j + 1),
        ),
        be_val(padded.skip(n - j + 1)) < pow2((8 * (j - 1)) as nat),
        be_val(rhs.skip(m - j + 1)) < pow2((8 * (j - 1)) as nat),
{
    lemma_be_val_split(padded.skip(n - j), 1);
    assert(padded.skip(n - j).take(1) =~= seq![padded[n - j]]);
    assert(padded.skip(n - j).skip(1) =~= padded.skip(n - j + 1));
    lemma_be_val_one(padded[n - j]);
    lemma_be_val_split(rhs.skip(m - j), 1);
    assert(rhs.skip(m - j).take(1) =~= seq![rhs[m - j]]);
    assert(rhs.skip(m - j).skip(1) =~= rhs.skip(m - j + 1));
    lemma_be_val_one(rhs[m - j]);
    lemma_be_val_bound(padded.skip(n - j + 1));
    lemma_be_val_bound(rhs.skip(m - j + 1));
}

/// After the loop the untouched high part and the fully processed low part
/// assemble into the whole value.
proof fn lemma_zip_final_facts(cur: Seq<u8>, padded: Seq<u8>, rhs: Seq<u8>, n: int, m: int)
    requires
        0 <= m <= n,
        cur.len() == n,
        padded.len() == n,
        rhs.len() == m,
    ensures
        be_val(padded.skip(n - m)) < pow2((8 * m) as nat),
        be_val(rhs) < pow2((8 * m) as nat),
        be_val(rhs.skip(0)) == be_val(rhs),
{
    lemma_be_val_bound(padded.skip(n - m));
    lemma_be_val_bound(rhs);
    assert(rhs.skip(0) =~= rhs);
}

/// The zipped and of two aligned suffixes carries the and of the values.
proof fn lemma_and_zip_value(out: Seq<u8>, a: Seq<u8>, b: Seq<u8>, o: int)
    requires
        0 <= o <= a.len(),
        o <= b.len(),
        o == (if a.len() < b.len() {
            a.len() as int
        } else {
            b.len() as int
        }),
        out.len() == o,
        forall|t: int| 0 <= t < o ==> out[t] == (a[a.len() - o + t] & b[b.len() - o + t]),
    ensures
        be_val(out) == nat_and(be_val(a), be_val(b)),
    decreases o,
{
    let n = a.len() as int;
    let m = b.len() as int;
    if o == 0 {
        if n < m {
            assert(a =~= Seq::<u8>::empty());
            lemma_zero_ops(be_val(b));
        } else {
            assert(b =~= Seq::<u8>::empty());
            lemma_zero_ops(be_val(a));
        }
    } else {
        let a1 = a.drop_last();
        let b1 = b.drop_last();
        let out1 = out.drop_last();
        assert(forall|t: int|
            0 <= t < o - 1 ==> out1[t] == (a1[a1.len() - (o - 1) + t] & b1[b1.len() - (o - 1)
                + t]));
        lemma_and_zip_value(out1, a1, b1, o - 1);
        lemma_pow2_byte_consts();
        crate::bits::lemma_ops_chunk(be_val(a1), a.last() as nat, be_val(b1), b.last() as nat, 8);
        crate::bits::lemma_u8_and(a.last(), b.last());
        assert(out.last() == (a.last() & b.last()));
    }
}

/// One step of peeling a byte off a value: the remainder by the word width
/// absorbs one more byte.
proof fn lemma_mod_mul_word(q: nat, b: nat)
    requires
        b < 256,
    ensures
        ((q % pow2(64)) * 256 + b) % pow2(64) == (q * 256 + b) % pow2(64),
{
    lemma_pow2_byte_consts();
    let w = pow2(64);
    vstd::arithmetic::div_mod::lemma_fundamental_div_mod(q as int, w as int);
    let qq = q / w;
    assert(q == w * qq + q % w);
    let rr = q % w;
    assert((w * qq + rr) * 256 == (qq * 256) * w + rr * 256) by (nonlinear_arith);
    assert(q * 256 + b == rr * 256 + b + (qq * 256) * w);
    vstd::arithmetic::div_mod::lemma_mod_multiples_vanish(
        (qq * 256) as int,
        ((q % w) * 256 + b) as int,
        w as int,
    );
}

} // verus!
