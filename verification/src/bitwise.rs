//! Population count and parity over machine integers and byte slices.

use vstd::prelude::*;
use crate::bits::{pop, lemma_pop_bound, lemma_pop_chunk, lemma_u8_pop_step, lemma_u64_pop_step,
    lemma_u128_pop_step};
use crate::buffer::{be_val, lemma_pow2_byte_consts};

verus! {

/// Counting and folding the set bits of a value.
///
/// `bit_value` is the numeric value whose binary representation is
/// inspected; `count` returns the number of set bits and `parity` that
/// number modulo two, both stated by `pop`. `countable` is the machine
/// limit under which the count fits in the result type; it is always true
/// for fixed-width integers.
pub trait Bitwise {
    /// The value whose binary representation the other methods inspect.
    spec fn bit_value(&self) -> nat;

    /// Machine limit: the count fits in a `u64`.
    spec fn countable(&self) -> bool;

    /// Number of set bits.
    fn count(&self) -> (r: u64)
        requires
            self.countable(),
        ensures
            r == pop(self.bit_value()),
    ;

    /// Number of set bits modulo two.
    fn parity(&self) -> (r: u64)
        requires
            self.countable(),
        ensures
            r == pop(self.bit_value()) % 2,
    ;
}

impl Bitwise for u8 {
    open spec fn bit_value(&self) -> nat {
        *self as nat
    }

    open spec fn countable(&self) -> bool {
        true
    }

    fn count(&self) -> (r: u64) {
        proof {
            lemma_pow2_byte_consts();
            lemma_pop_bound(*self as nat, 8);
        }
        let mut count: u64 = 0;
        let mut copy: u8 = *self;
        while copy != 0
            invariant
                count + pop(copy as nat) == pop(self.bit_value()),
                pop(self.bit_value()) <= 8,
            decreases copy,
        {
            proof {
                lemma_u8_pop_step(copy);
            }
            count = count + (copy & 1) as u64;
            copy = copy >> 1;
        }
        count
    }

    fn parity(&self) -> (r: u64) {
        let c = self.count();
        proof {
            let c0 = c;
            assert(c0 & 1 == c0 % 2) by (bit_vector);
        }
        c & 1
    }
}

impl Bitwise for u64 {
    open spec fn bit_value(&self) -> nat {
        *self as nat
    }

    open spec fn countable(&self) -> bool {
        true
    }

    fn count(&self) -> (r: u64) {
        proof {
            lemma_pow2_byte_consts();
            lemma_pop_bound(*self as nat, 64);
        }
        let mut count: u64 = 0;
        let mut copy: u64 = *self;
        while copy != 0
            invariant
                count + pop(copy as nat) == pop(self.bit_value()),
                pop(self.bit_value()) <= 64,
            decreases copy,
        {
            proof {
                lemma_u64_pop_step(copy);
            }
            count = count + (copy & 1);
            copy = copy >> 1;
        }
        count
    }

    fn parity(&self) -> (r: u64) {
        let c = self.count();
        proof {
            let c0 = c;
            assert(c0 & 1 == c0 % 2) by (bit_vector);
        }
        c & 1
    }
}

impl Bitwise for u128 {
    open spec fn bit_value(&self) -> nat {
        *self as nat
    }

    open spec fn countable(&self) -> bool {
        true
    }

    fn count(&self) -> (r: u64) {
        proof {
            lemma_pow2_byte_consts();
            lemma_pop_bound(*self as nat, 128);
        }
        let mut count: u64 = 0;
        let mut copy: u128 = *self;
        while copy != 0
            invariant
                count + pop(copy as nat) == pop(self.bit_value()),
                pop(self.bit_value()) <= 128,
            decreases copy,
        {
            proof {
                lemma_u128_pop_step(copy);
            }
            count = count + (copy & 1) as u64;
            copy = copy >> 1;
        }
        count
    }

    fn parity(&self) -> (r: u64) {
        let c = self.count();
        proof {
            let c0 = c;
            assert(c0 & 1 == c0 % 2) by (bit_vector);
        }
        c & 1
    }
}

/// The set bits of a byte sequence's value split into the bits of the last
/// byte and the bits of the rest.
pub proof fn lemma_pop_be_val_step(s: Seq<u8>)
    requires
        s.len() > 0,
    ensures
        pop(be_val(s)) == pop(be_val(s.drop_last())) + pop(s.last() as nat),
{
    lemma_pow2_byte_consts();
    lemma_pop_chunk(be_val(s.drop_last()), s.last() as nat, 8);
}

impl Bitwise for [u8] {
    open spec fn bit_value(&self) -> nat {
        be_val(self@)
    }

    open spec fn countable(&self) -> bool {
        self@.len() <= 0x1fffffffffffffff
    }

    fn count(&self) -> (r: u64) {
        let mut count: u64 = 0;
        let mut i: usize = 0;
        let n = self.len();
        while i < n
            invariant
                n == self@.len(),
                n <= 0x1fffffffffffffff,
                i <= n,
                count == pop(be_val(self@.take(i as int))),
                count <= 8 * i,
            decreases n - i,
        {
            proof {
                assert(self@.take(i as int + 1).drop_last() == self@.take(i as int));
                assert(self@.take(i as int + 1).last() == self@[i as int]);
                lemma_pop_be_val_step(self@.take(i as int + 1));
                lemma_pow2_byte_consts();
                lemma_pop_bound(self@[i as int] as nat, 8);
            }
            let b = self[i];
            count = count + b.count();
            i = i + 1;
        }
        proof {
            assert(self@.take(n as int) == self@);
        }
        count
    }

    fn parity(&self) -> (r: u64) {
        let c = self.count();
        proof {
            let c0 = c;
            assert(c0 & 1 == c0 % 2) by (bit_vector);
        }
        c & 1
    }
}

} // verus!
