//! The 64-bit-backed codec: up to 57 payload bits in an 8-byte buffer.

use vstd::prelude::*;
use vstd::arithmetic::power2::pow2;
use crate::bits::{pop, nat_xor, nat_and, nat_or, nat_diff, lemma_p2, lemma_zero_ops,
    lemma_xor_involution, lemma_ops_bound, lemma_u64_xor, lemma_u64_and, lemma_u64_or,
    lemma_u64_diff};
use crate::buffer::{be_val, to_bytes, flip_bit, read_u64_be, write_u64_be,
    lemma_to_bytes_val, lemma_to_bytes_exact, lemma_pow2_byte_consts};
use crate::bitwise::Bitwise;
use crate::hamming::{is_code_width, syndromes_distinct, hamming_size, w2count,
    rows_upto, spec_rows, row_parity, mfold, mproduct, syndrome_of, first_match,
    lemma_code_width_cap, lemma_w2count_monotone, lemma_w2count_pow2,
    lemma_rows_upto_bound, lemma_spec_rows_structure, lemma_mfold_bound, lemma_mproduct_bound,
    lemma_mproduct_bit0, lemma_mproduct_linear,
    lemma_first_match_found, lemma_first_match_none, lemma_payload_disjoint,
    lemma_encode_consistent, lemma_encoded_bound, lemma_syndromes_always_distinct};
use crate::{CodecError, SecDedCodec};

verus! {

/// A codec for at most 57 payload bits, backed by `u64` arithmetic over an
/// 8-byte big-endian buffer.
pub struct SecDed64 {
    pub encodable_size: u8,
    pub m: u8,
    pub mask: u8,
    pub encode_matrix: Vec<u64>,
    pub syndromes: Vec<u64>,
}

impl SecDed64 {
    /// The parity-check rows as the mathematical model sees them.
    pub open spec fn rows(&self) -> Seq<nat> {
        self.encode_matrix@.map_values(|x: u64| x as nat)
    }

    /// The syndrome table as the mathematical model sees it.
    pub open spec fn table(&self) -> Seq<nat> {
        self.syndromes@.map_values(|x: u64| x as nat)
    }

    /// The all-ones mask of the check field.
    pub open spec fn mask_val(&self) -> nat {
        (pow2(self.m as nat + 1) - 1) as nat
    }

    /// Folds the parities of `value` against each matrix row into one
    /// check-field value, closing with the overall parity bit.
    fn bin_matrix_product_paritied(matrix: &Vec<u64>, value: u64) -> (r: u64)
        requires
            matrix.len() <= 62,
        ensures
            r as nat == mproduct(matrix@.map_values(|x: u64| x as nat), value as nat),
    {
        let ghost rows = matrix@.map_values(|x: u64| x as nat);
        let mut result: u64 = 0;
        let mut j: usize = 0;
        proof {
            assert(rows.take(0) =~= Seq::<nat>::empty());
        }
        while j < matrix.len()
            invariant
                j <= matrix.len() <= 62,
                rows == matrix@.map_values(|x: u64| x as nat),
                result as nat == mfold(rows.take(j as int), value as nat),
            decreases matrix.len() - j,
        {
            let p = (matrix[j] & value).parity();
            proof {
                lemma_u64_and(matrix@[j as int], value);
                assert(rows[j as int] == matrix@[j as int] as nat);
                assert(p == row_parity(rows[j as int], value as nat));
                assert(rows.take(j as int + 1).drop_last() =~= rows.take(j as int));
                assert(rows.take(j as int + 1).last() == rows[j as int]);
                lemma_mfold_bound(rows.take(j as int), value as nat);
                vstd::arithmetic::power2::lemma2_to64();
                vstd::arithmetic::power2::lemma2_to64_rest();
                if rows.take(j as int).len() + 1 < 63 {
                    vstd::arithmetic::power2::lemma_pow2_strictly_increases(
                        rows.take(j as int).len() + 1,
                        63,
                    );
                }
                let r0 = result;
                let p0 = p;
                assert(((r0 ^ p0) << 1u64) == 2 * ((r0 + p0) as u64) && r0 ^ p0 == r0 + p0) by (bit_vector)
                    requires
                        r0 % 2 == 0,
                        p0 <= 1,
                        r0 < 0x8000000000000000u64,
                ;
            }
            result = (result ^ p) << 1u64;
            j = j + 1;
        }
        proof {
            assert(rows.take(matrix.len() as int) =~= rows);
        }
        let q = result.parity();
        proof {
            lemma_mfold_bound(rows, value as nat);
            let r0 = result;
            let q0 = q;
            assert((r0 | q0) == r0 + q0) by (bit_vector)
                requires
                    r0 % 2 == 0,
                    q0 <= 1,
            ;
        }
        result | q
    }

    /// Builds the codec for `encodable_size` payload bits.
    ///
    /// Construction runs the two matrix passes and computes the syndrome
    /// of every coverable single-bit error. The syndromes are pairwise
    /// distinct by `lemma_syndromes_always_distinct`, so construction
    /// succeeds for every size the representation can hold.
    pub fn new(encodable_size: usize) -> (r: Result<SecDed64, CodecError>)
        ensures
            r is Ok <==> encodable_size <= 57,
            r matches Ok(c) ==> c.wf() && c.encodable_size == encodable_size,
            encodable_size > 57 ==> r == Err::<SecDed64, CodecError>(CodecError::CapacityExceeded),
    {
        if encodable_size > 57 {
            return Err(CodecError::CapacityExceeded);
        }
        let m = hamming_size(encodable_size);
        proof {
            vstd::arithmetic::power2::lemma2_to64();
            lemma_code_width_cap(encodable_size as nat, m as nat, 6, 57);
            assert(pow2(m as nat) <= 64);
            assert(encodable_size + m + 1 <= pow2(m as nat));
        }
        let ghost gm = m as nat;
        let ghost gsize = encodable_size as nat;

        // First pass: append the digits of every candidate column with two
        // or more set bits.
        let mut encode_matrix: Vec<u64> = Vec::new();
        let mut k: usize = 0;
        while k < m
            invariant
                k <= m,
                encode_matrix@.len() == k,
                forall|t: int| 0 <= t < k ==> encode_matrix@[t] == 0,
            decreases m - k,
        {
            encode_matrix.push(0);
            k = k + 1;
        }
        proof {
            assert(encode_matrix@.map_values(|x: u64| x as nat) =~= rows_upto(gm, 0));
        }
        let lim: u64 = 1u64 << (m as u64);
        proof {
            vstd::bits::lemma_u64_pow2_no_overflow(gm);
            vstd::bits::lemma_u64_shl_is_mul(1u64, m as u64);
            lemma_w2count_pow2(gm);
        }
        let mut i: u64 = 1;
        while i <= lim
            invariant
                1 <= i <= lim + 1,
                lim as nat == pow2(gm),
                lim <= 64,
                1 <= gm <= 6,
                m == gm,
                encodable_size == gsize,
                gsize + gm + 1 <= pow2(gm),
                w2count(pow2(gm)) == pow2(gm) - gm - 1,
                encode_matrix@.len() == gm,
                encode_matrix@.map_values(|x: u64| x as nat) == rows_upto(gm, (i - 1) as nat),
            decreases lim + 1 - i,
        {
            let c = i.count();
            if c >= 2 {
                let ghost prev = rows_upto(gm, (i - 1) as nat);
                proof {
                    assert(rows_upto(gm, i as nat) == Seq::new(
                        gm,
                        |t: int| 2 * prev[t] + (i as nat / pow2((gm - 1 - t) as nat)) % 2,
                    ));
                    lemma_w2count_monotone(i as nat, pow2(gm));
                    assert(w2count(i as nat) == w2count((i - 1) as nat) + 1);
                    assert(w2count((i - 1) as nat) + 1 <= pow2(gm) - gm - 1);
                    assert(pow2(gm) - gm - 1 <= 57) by {
                        vstd::arithmetic::power2::lemma2_to64();
                    }
                    assert(w2count((i - 1) as nat) <= 56);
                }
                let mut k: usize = 0;
                while k < m
                    invariant
                        k <= m,
                        m == gm,
                        1 <= gm <= 6,
                        i >= 1,
                        pop(i as nat) >= 2,
                        w2count((i - 1) as nat) <= 56,
                        prev == rows_upto(gm, (i - 1) as nat),
                        rows_upto(gm, i as nat) == Seq::new(
                            gm,
                            |t: int| 2 * prev[t] + (i as nat / pow2((gm - 1 - t) as nat)) % 2,
                        ),
                        encode_matrix@.len() == gm,
                        forall|t: int|
                            0 <= t < k ==> encode_matrix@[t] as nat == rows_upto(gm, i as nat)[t],
                        forall|t: int|
                            k <= t < gm ==> encode_matrix@[t] as nat == prev[t],
                    decreases m - k,
                {
                    let sh: u64 = (m - 1 - k) as u64;
                    let bit: u64 = (i >> sh) & 1;
                    let row = encode_matrix[k];
                    proof {
                        vstd::bits::lemma_u64_shr_is_div(i, sh);
                        let q0 = i >> sh;
                        assert(q0 & 1 == q0 % 2) by (bit_vector);
                        assert(bit as nat == (i as nat / pow2(sh as nat)) % 2);
                        lemma_rows_upto_bound(gm, (i - 1) as nat, k as int);
                        if w2count((i - 1) as nat) < 56 {
                            vstd::arithmetic::power2::lemma_pow2_strictly_increases(
                                w2count((i - 1) as nat),
                                56,
                            );
                        }
                        vstd::arithmetic::power2::lemma2_to64_rest();
                        let r0 = row;
                        let b0 = bit;
                        assert((r0 << 1u64) | b0 == 2 * r0 + b0) by (bit_vector)
                            requires
                                r0 < 0x100000000000000u64,
                                b0 <= 1,
                        ;
                        assert(rows_upto(gm, i as nat)[k as int] == 2 * prev[k as int] + (i as nat
                            / pow2((gm - 1 - k as int) as nat)) % 2);
                    }
                    encode_matrix[k] = (row << 1u64) | bit;
                    k = k + 1;
                }
                proof {
                    assert(encode_matrix@.map_values(|x: u64| x as nat) =~= rows_upto(
                        gm,
                        i as nat,
                    ));
                }
            } else {
                proof {
                    assert(rows_upto(gm, i as nat) == rows_upto(gm, (i - 1) as nat));
                }
            }
            i = i + 1;
        }
        proof {
            assert((i - 1) as nat == pow2(gm));
        }

        // Second pass: shift each row past the check field and set the
        // row's dedicated check bit.
        let ghost base = rows_upto(gm, pow2(gm));
        let mut k: usize = 0;
        while k < m
            invariant
                k <= m,
                m == gm,
                1 <= gm <= 6,
                base == rows_upto(gm, pow2(gm)),
                w2count(pow2(gm)) == pow2(gm) - gm - 1,
                encode_matrix@.len() == gm,
                forall|t: int| 0 <= t < k ==> encode_matrix@[t] as nat == spec_rows(gm)[t],
                forall|t: int| k <= t < gm ==> encode_matrix@[t] as nat == base[t],
            decreases m - k,
        {
            let h = encode_matrix[k];
            let sh1: u64 = m as u64 + 1;
            let sh2: u64 = (m - k) as u64;
            proof {
                lemma_rows_upto_bound(gm, pow2(gm), k as int);
                vstd::arithmetic::power2::lemma2_to64();
                vstd::arithmetic::power2::lemma2_to64_rest();
                if w2count(pow2(gm)) < 57 {
                    vstd::arithmetic::power2::lemma_pow2_strictly_increases(w2count(pow2(gm)), 57);
                }
                assert((h as nat) < pow2(57));
                assert(pow2(gm + 1) <= pow2(7)) by {
                    if gm + 1 < 7 {
                        vstd::arithmetic::power2::lemma_pow2_strictly_increases(gm + 1, 7);
                    }
                }
                assert(h as nat * pow2(gm + 1) <= (pow2(57) - 1) * pow2(7)) by (nonlinear_arith)
                    requires
                        (h as nat) < pow2(57),
                        0 < pow2(gm + 1) <= pow2(7),
                ;
                vstd::arithmetic::power2::lemma_pow2_adds(57, 7);
                assert((pow2(57) - 1) * pow2(7) == pow2(64) - pow2(7)) by (nonlinear_arith)
                    requires
                        pow2(57) * pow2(7) == pow2(64),
                ;
                vstd::bits::lemma_u64_shl_is_mul(h, sh1);
                vstd::bits::lemma_u64_pow2_no_overflow(sh2 as nat);
                vstd::bits::lemma_u64_shl_is_mul(1u64, sh2);
                let shifted: u64 = h << sh1;
                let bitv: u64 = 1u64 << sh2;
                lemma_u64_or(shifted, bitv);
                assert(shifted as nat == h as nat * pow2(gm + 1));
                assert(bitv as nat == pow2((gm - k as int) as nat));
                vstd::arithmetic::power2::lemma_pow2_strictly_increases(
                    (gm - k as int) as nat,
                    gm + 1,
                );
                crate::bits::lemma_ops_chunk(h as nat, 0, 0, bitv as nat, gm + 1);
                lemma_zero_ops(h as nat);
                lemma_zero_ops(bitv as nat);
                assert(nat_or(shifted as nat, bitv as nat) == h as nat * pow2(gm + 1)
                    + bitv as nat);
                assert(spec_rows(gm)[k as int] == base[k as int] * pow2(gm + 1) + pow2(
                    (gm - k as int) as nat,
                ));
            }
            encode_matrix[k] = (h << sh1) | (1u64 << sh2);
            k = k + 1;
        }
        proof {
            assert(encode_matrix@.map_values(|x: u64| x as nat) =~= spec_rows(gm));
        }

        // The mask of the whole check field.
        let mp1: u8 = m as u8 + 1;
        proof {
            vstd::bits::lemma_u8_pow2_no_overflow(mp1 as nat);
            vstd::bits::lemma_u8_shl_is_mul(1u8, mp1);
            lemma_p2(mp1 as nat);
        }
        let mask: u8 = (1u8 << mp1) - 1;

        // The syndrome of every single-bit error the code covers.
        let mut syndromes: Vec<u64> = Vec::new();
        let mut e: usize = 0;
        while e < 64
            invariant
                e <= 64,
                syndromes@.len() == e,
                forall|t: int| 0 <= t < e ==> syndromes@[t] == 0,
            decreases 64 - e,
        {
            syndromes.push(0);
            e = e + 1;
        }
        let top: usize = encodable_size + m;
        proof {
            assert(gsize + gm <= 63);
        }
        let mut e: usize = 0;
        while e <= top
            invariant
                e <= top + 1,
                top == gsize + gm <= 63,
                m == gm,
                1 <= gm <= 6,
                encodable_size == gsize,
                encode_matrix@.len() == gm,
                encode_matrix@.map_values(|x: u64| x as nat) == spec_rows(gm),
                syndromes@.len() == 64,
                forall|t: int|
                    0 <= t < e ==> #[trigger] syndromes@[t] as nat == syndrome_of(gm, t as nat),
                forall|t: int| e <= t < 64 ==> syndromes@[t] == 0,
            decreases top + 1 - e,
        {
            let err: u64 = 1u64 << (e as u64);
            proof {
                vstd::bits::lemma_u64_pow2_no_overflow(e as nat);
                vstd::bits::lemma_u64_shl_is_mul(1u64, e as u64);
            }
            let s = Self::bin_matrix_product_paritied(&encode_matrix, err);
            syndromes[e] = s;
            e = e + 1;
        }

        proof {
            lemma_syndromes_always_distinct(gm, gsize);
        }

        let codec = SecDed64 {
            encodable_size: encodable_size as u8,
            m: m as u8,
            mask,
            encode_matrix,
            syndromes,
        };
        proof {
            assert(codec.rows() == spec_rows(gm));
            assert(codec.wf());
        }
        Ok(codec)
    }
}

impl SecDedCodec for SecDed64 {
    /// Everything the constructor established: the rows and the syndrome
    /// table are exactly the ones of the mirrored construction, the
    /// syndromes of all covered single-bit errors are pairwise distinct,
    /// and all widths agree.
    open spec fn wf(&self) -> bool {
        let size = self.encodable_size as nat;
        let m = self.m as nat;
        &&& is_code_width(size, m)
        &&& size <= 57
        &&& 1 <= m <= 6
        &&& size + m + 1 <= 64
        &&& self.mask as nat == self.mask_val()
        &&& self.encode_matrix@.len() == m
        &&& self.rows() == spec_rows(m)
        &&& self.syndromes@.len() == 64
        &&& forall|e: int|
            0 <= e <= size + m ==> #[trigger] self.table()[e] == syndrome_of(m, e as nat)
        &&& forall|e: int| size + m < e < 64 ==> #[trigger] self.table()[e] == 0
        &&& syndromes_distinct(m, size)
    }

    open spec fn spec_encodable_size(&self) -> nat {
        self.encodable_size as nat
    }

    open spec fn spec_code_size(&self) -> nat {
        self.m as nat + 1
    }

    open spec fn spec_expected_slice_size(&self) -> Option<usize> {
        Some(8usize)
    }

    open spec fn valid_buffer(&self, s: Seq<u8>) -> bool {
        s.len() == 8
    }

    open spec fn valid_payload(&self, s: Seq<u8>) -> bool {
        &&& s.len() == 8
        &&& nat_and(be_val(s), self.mask_val()) == 0
        &&& be_val(s) < pow2(self.encodable_size as nat + self.m as nat + 1)
    }

    open spec fn spec_encode(&self, s: Seq<u8>) -> Seq<u8> {
        to_bytes(nat_or(be_val(s), mproduct(spec_rows(self.m as nat), be_val(s))), 8)
    }

    open spec fn spec_decode(&self, s: Seq<u8>) -> Option<Seq<u8>> {
        let v = be_val(s);
        let syn = mproduct(spec_rows(self.m as nat), v);
        if syn == 0 {
            Some(to_bytes(nat_diff(v, self.mask_val()), 8))
        } else {
            let idx = first_match(self.table(), syn);
            if idx >= 0 {
                Some(to_bytes(nat_diff(nat_xor(v, pow2(idx as nat)), self.mask_val()), 8))
            } else {
                None
            }
        }
    }

    fn encodable_size(&self) -> (r: usize) {
        self.encodable_size as usize
    }

    fn code_size(&self) -> (r: usize) {
        self.m as usize + 1
    }

    fn expected_slice_size(&self) -> (r: Option<usize>) {
        Some(8)
    }

    fn encode(&self, data: &mut Vec<u8>) {
        let encodable = read_u64_be(data);
        let code = Self::bin_matrix_product_paritied(&self.encode_matrix, encodable);
        let merged = encodable | code;
        proof {
            lemma_u64_or(encodable, code);
            assert(self.rows() == spec_rows(self.m as nat));
        }
        write_u64_be(data, merged);
    }

    fn decode(&self, data: &mut Vec<u8>) -> (r: Result<(), ()>) {
        let decodable = read_u64_be(data);
        let syndrome = Self::bin_matrix_product_paritied(&self.encode_matrix, decodable);
        let notmask: u64 = !(self.mask as u64);
        if syndrome == 0 {
            let cleared = decodable & notmask;
            proof {
                lemma_u64_diff(decodable, self.mask as u64);
            }
            write_u64_be(data, cleared);
            return Ok(());
        }
        let mut idx: usize = 0;
        while idx < 64
            invariant
                idx <= 64,
                self.wf(),
                notmask == !(self.mask as u64),
                data@ == old(data)@,
                data@.len() == 8,
                decodable as nat == be_val(old(data)@),
                syndrome as nat == mproduct(spec_rows(self.m as nat), be_val(old(data)@)),
                syndrome != 0,
                forall|j: int| 0 <= j < idx ==> self.table()[j] != syndrome as nat,
            decreases 64 - idx,
        {
            if self.syndromes[idx] == syndrome {
                proof {
                    lemma_first_match_found(self.table(), syndrome as nat, idx as int);
                }
                let bitv: u64 = 1u64 << (idx as u64);
                proof {
                    vstd::bits::lemma_u64_pow2_no_overflow(idx as nat);
                    vstd::bits::lemma_u64_shl_is_mul(1u64, idx as u64);
                    lemma_u64_xor(decodable, bitv);
                }
                let corrected = decodable ^ bitv;
                let cleared = corrected & notmask;
                proof {
                    lemma_u64_diff(corrected, self.mask as u64);
                }
                write_u64_be(data, cleared);
                return Ok(());
            }
            idx = idx + 1;
        }
        proof {
            lemma_first_match_none(self.table(), syndrome as nat);
        }
        Err(())
    }
}

/// Common ground of the codec laws: the encoded word of a valid payload,
/// its value, and the facts that tie them together.
proof fn lemma_encode_facts_64(c: &SecDed64, s: Seq<u8>)
    requires
        c.wf(),
        c.valid_payload(s),
    ensures
        ({
            let m = c.m as nat;
            let v = be_val(s);
            let code = mproduct(spec_rows(m), v);
            let enc = v + code;
            &&& spec_rows(m).len() == m
            &&& code < pow2(m + 1)
            &&& nat_or(v, code) == enc
            &&& nat_xor(v, code) == enc
            &&& v % pow2(m + 1) == 0
            &&& enc < pow2(c.encodable_size as nat + m + 1)
            &&& enc < pow2(64)
            &&& be_val(c.spec_encode(s)) == enc
            &&& c.spec_encode(s).len() == 8
            &&& mproduct(spec_rows(m), enc) == 0
            &&& nat_diff(enc, c.mask_val()) == v
        }),
{
    let m = c.m as nat;
    let size = c.encodable_size as nat;
    let v = be_val(s);
    let code = mproduct(spec_rows(m), v);
    lemma_mproduct_bound(spec_rows(m), v);
    lemma_payload_disjoint(v, code, m);
    lemma_encode_consistent(m, v);
    lemma_encoded_bound(m, size, v, code);
    if size + m + 1 < 64 {
        vstd::arithmetic::power2::lemma_pow2_strictly_increases(size + m + 1, 64);
    }
    lemma_to_bytes_val((v + code) as nat, 8);
    lemma_pow2_byte_consts();
    vstd::arithmetic::div_mod::lemma_small_mod((v + code) as nat, pow2(64));
}

/// Round trip without error: decoding an encoded valid payload succeeds
/// and returns the payload unchanged, with the check field cleared.
pub proof fn lemma_round_trip_64(c: &SecDed64, s: Seq<u8>)
    requires
        c.wf(),
        c.valid_payload(s),
    ensures
        c.spec_decode(c.spec_encode(s)) == Some(s),
{
    let m = c.m as nat;
    let v = be_val(s);
    let code = mproduct(spec_rows(m), v);
    let enc = v + code;
    lemma_encode_facts_64(c, s);
    let t = c.spec_encode(s);
    assert(mproduct(spec_rows(m), be_val(t)) == 0);
    assert(c.spec_decode(t) == Some(to_bytes(nat_diff(enc, c.mask_val()), 8)));
    lemma_to_bytes_exact(s);
}

/// Single-bit correction: flipping any covered bit of an encoded word and
/// decoding recovers the original payload.
pub proof fn lemma_single_bit_correction_64(c: &SecDed64, s: Seq<u8>, e: nat)
    requires
        c.wf(),
        c.valid_payload(s),
        e < c.spec_encodable_size() + c.spec_code_size(),
    ensures
        c.spec_decode(flip_bit(c.spec_encode(s), e)) == Some(s),
{
    let m = c.m as nat;
    let size = c.encodable_size as nat;
    let v = be_val(s);
    let code = mproduct(spec_rows(m), v);
    let enc = v + code;
    lemma_encode_facts_64(c, s);
    let t = c.spec_encode(s);
    let fv = nat_xor(enc, pow2(e));
    lemma_pow2_byte_consts();
    if e < 64 {
        vstd::arithmetic::power2::lemma_pow2_strictly_increases(e, 64);
    }
    lemma_ops_bound(enc, pow2(e), 64);
    lemma_to_bytes_val(fv, 8);
    vstd::arithmetic::div_mod::lemma_small_mod(fv, pow2(64));
    assert(flip_bit(t, e) == to_bytes(fv, 8));
    assert(be_val(flip_bit(t, e)) == fv);
    lemma_mproduct_linear(spec_rows(m), enc, pow2(e));
    lemma_zero_ops(syndrome_of(m, e));
    assert(mproduct(spec_rows(m), fv) == syndrome_of(m, e));
    assert(forall|k: int| 0 <= k < m ==> #[trigger] spec_rows(m)[k] % 2 == 0) by {
        assert forall|k: int| 0 <= k < m implies #[trigger] spec_rows(m)[k] % 2 == 0 by {
            lemma_spec_rows_structure(m, k);
        }
    }
    lemma_mproduct_bit0(spec_rows(m));
    lemma_p2(0);
    assert(syndrome_of(m, 0) == 0);
    if e == 0 {
        assert(c.spec_decode(flip_bit(t, e)) == Some(to_bytes(nat_diff(fv, c.mask_val()), 8)));
        lemma_p2(m + 1);
        lemma_p2(m);
        let ph = v / pow2(m + 1);
        vstd::arithmetic::div_mod::lemma_fundamental_div_mod(v as int, pow2(m + 1) as int);
        vstd::arithmetic::mul::lemma_mul_is_commutative(pow2(m + 1) as int, ph as int);
        assert(v == ph * pow2(m + 1));
        assert(1 < pow2(m + 1));
        crate::bits::lemma_ops_chunk(ph, code, 0, 1, m + 1);
        lemma_zero_ops(ph);
        assert(fv == ph * pow2(m + 1) + nat_xor(code, 1));
        lemma_ops_bound(code, 1, m + 1);
        crate::bits::lemma_diff_low_mask(ph, nat_xor(code, 1), m + 1);
        assert(nat_diff(fv, c.mask_val()) == v);
        lemma_to_bytes_exact(s);
    } else {
        assert(syndrome_of(m, 0) != syndrome_of(m, e));
        let syn = syndrome_of(m, e);
        assert(syn != 0);
        assert(c.table()[e as int] == syn);
        assert(forall|j: int| 0 <= j < e ==> c.table()[j] != syn) by {
            assert forall|j: int| 0 <= j < e implies c.table()[j] != syn by {
                assert(c.table()[j] == syndrome_of(m, j as nat));
                assert(syndrome_of(m, j as nat) != syndrome_of(m, e));
            }
        }
        lemma_first_match_found(c.table(), syn, e as int);
        assert(c.spec_decode(flip_bit(t, e)) == Some(
            to_bytes(nat_diff(nat_xor(fv, pow2(e)), c.mask_val()), 8),
        ));
        lemma_xor_involution(enc, pow2(e));
        assert(nat_xor(fv, pow2(e)) == enc);
        lemma_to_bytes_exact(s);
    }
}

/// Double-bit detection: no two distinct covered single-bit errors share a
/// syndrome, so a double flip never looks like a clean word.
pub proof fn lemma_double_error_detected_64(c: &SecDed64, s: Seq<u8>, e1: nat, e2: nat)
    requires
        c.wf(),
        c.valid_payload(s),
        e1 < e2,
        e2 < c.spec_encodable_size() + c.spec_code_size(),
    ensures
        syndrome_of(c.m as nat, e1) != syndrome_of(c.m as nat, e2),
        mproduct(
            spec_rows(c.m as nat),
            nat_xor(nat_xor(be_val(c.spec_encode(s)), pow2(e1)), pow2(e2)),
        ) != 0,
{
    let m = c.m as nat;
    let v = be_val(s);
    let enc = v + mproduct(spec_rows(m), v);
    lemma_encode_facts_64(c, s);
    let s1 = syndrome_of(m, e1);
    let s2 = syndrome_of(m, e2);
    lemma_mproduct_linear(spec_rows(m), enc, pow2(e1));
    lemma_zero_ops(s1);
    assert(mproduct(spec_rows(m), nat_xor(enc, pow2(e1))) == s1);
    lemma_mproduct_linear(spec_rows(m), nat_xor(enc, pow2(e1)), pow2(e2));
    assert(mproduct(spec_rows(m), nat_xor(nat_xor(enc, pow2(e1)), pow2(e2))) == nat_xor(s1, s2));
    if nat_xor(s1, s2) == 0 {
        lemma_xor_involution(s1, s2);
        lemma_zero_ops(s2);
        assert(s1 == s2);
        assert(false);
    }
}

} // verus!
