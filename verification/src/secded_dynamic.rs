//! The arbitrary-width codec: payloads beyond 120 bits, over a byte-vector
//! integer. The construction, the parity product and the decode procedure
//! are the same as for the fixed-width codecs, only the word arithmetic
//! runs on `Bitvec` values instead of machine integers.

use vstd::prelude::*;
use vstd::arithmetic::power2::pow2;
use crate::bits::{pop, nat_xor, nat_and, nat_or, nat_diff, lemma_p2, lemma_zero_ops,
    lemma_xor_involution, lemma_ops_bound};
use crate::buffer::{be_val, to_bytes, flip_bit, lemma_to_bytes_val,
    lemma_to_bytes_exact};
use crate::bitvec::Bitvec;
use crate::bitwise::Bitwise;
use crate::hamming::{is_code_width, syndromes_distinct, hamming_size,
    rows_upto, spec_rows, row_parity, mfold, mproduct, syndrome_of, first_match,
    lemma_code_width_cap, lemma_w2count_pow2,
    lemma_spec_rows_structure, lemma_mfold_bound, lemma_mproduct_bound,
    lemma_mproduct_bit0, lemma_mproduct_linear, lemma_first_match_found,
    lemma_first_match_none, lemma_payload_disjoint, lemma_encode_consistent, lemma_encoded_bound,
    lemma_syndromes_always_distinct};
use crate::{CodecError, SecDedCodec};

verus! {

/// The largest payload width, in bits, that the arbitrary-width codec is
/// configured to accept.
pub const DYNAMIC_MAX_ENCODABLE: usize = 4096;

/// A codec for payloads of any width up to the configured maximum, backed
/// by byte-vector arithmetic over a buffer of the caller's size.
pub struct SecDedDynamic {
    pub encodable_size: usize,
    pub m: usize,
    pub mask: Bitvec,
    pub encode_matrix: Vec<Bitvec>,
    pub syndromes: Vec<u64>,
}

impl SecDedDynamic {
    /// The parity-check rows as the mathematical model sees them.
    pub open spec fn rows(&self) -> Seq<nat> {
        self.encode_matrix@.map_values(|x: Bitvec| x.value())
    }

    /// The syndrome table as the mathematical model sees it.
    pub open spec fn table(&self) -> Seq<nat> {
        self.syndromes@.map_values(|x: u64| x as nat)
    }

    /// The all-ones mask of the check field.
    pub open spec fn mask_val(&self) -> nat {
        (pow2(self.m as nat + 1) - 1) as nat
    }

    /// Folds the parities of `value` against each matrix row into one
    /// check-field value, closing with the overall parity bit.
    fn bin_matrix_product_paritied(matrix: &Vec<Bitvec>, value: &Bitvec) -> (r: u64)
        requires
            matrix.len() <= 62,
            value@.len() <= 0x1fffffffffffffff,
        ensures
            r as nat == mproduct(matrix@.map_values(|x: Bitvec| x.value()), value.value()),
    {
        let ghost rows = matrix@.map_values(|x: Bitvec| x.value());
        let mut result: u64 = 0;
        let mut j: usize = 0;
        proof {
            assert(rows.take(0) =~= Seq::<nat>::empty());
        }
        while j < matrix.len()
            invariant
                j <= matrix.len() <= 62,
                value@.len() <= 0x1fffffffffffffff,
                rows == matrix@.map_values(|x: Bitvec| x.value()),
                result as nat == mfold(rows.take(j as int), value.value()),
            decreases matrix.len() - j,
        {
            let masked = matrix[j].and(value);
            let p = masked.parity();
            proof {
                assert(rows[j as int] == matrix@[j as int].value());
                assert(p == row_parity(rows[j as int], value.value()));
                assert(rows.take(j as int + 1).drop_last() =~= rows.take(j as int));
                assert(rows.take(j as int + 1).last() == rows[j as int]);
                lemma_mfold_bound(rows.take(j as int), value.value());
                vstd::arithmetic::power2::lemma2_to64();
                vstd::arithmetic::power2::lemma2_to64_rest();
                if rows.take(j as int).len() + 1 < 63 {
                    vstd::arithmetic::power2::lemma_pow2_strictly_increases(
                        rows.take(j as int).len() + 1,
                        63,
                    );
                }
                let r0 = result;
                let p0 = p;
                assert(((r0 ^ p0) << 1u64) == 2 * ((r0 + p0) as u64) && r0 ^ p0 == r0 + p0) by (bit_vector)
                    requires
                        r0 % 2 == 0,
                        p0 <= 1,
                        r0 < 0x8000000000000000u64,
                ;
            }
            result = (result ^ p) << 1u64;
            j = j + 1;
        }
        proof {
            assert(rows.take(matrix.len() as int) =~= rows);
        }
        let q = result.parity();
        proof {
            lemma_mfold_bound(rows, value.value());
            let r0 = result;
            let q0 = q;
            assert((r0 | q0) == r0 + q0) by (bit_vector)
                requires
                    r0 % 2 == 0,
                    q0 <= 1,
            ;
        }
        result | q
    }

    /// Builds the codec for `encodable_size` payload bits.
    ///
    /// Construction runs the two matrix passes and computes the syndrome
    /// of every coverable single-bit error. The syndromes are pairwise
    /// distinct by `lemma_syndromes_always_distinct`, so construction
    /// succeeds for every size up to the configured maximum.
    pub fn new(encodable_size: usize) -> (r: Result<SecDedDynamic, CodecError>)
        ensures
            r is Ok <==> encodable_size <= DYNAMIC_MAX_ENCODABLE,
            r matches Ok(c) ==> c.wf() && c.encodable_size == encodable_size,
            encodable_size > DYNAMIC_MAX_ENCODABLE ==> r == Err::<SecDedDynamic, CodecError>(
                CodecError::CapacityExceeded,
            ),
    {
        if encodable_size > DYNAMIC_MAX_ENCODABLE {
            return Err(CodecError::CapacityExceeded);
        }
        let m = hamming_size(encodable_size);
        proof {
            vstd::arithmetic::power2::lemma2_to64();
            lemma_code_width_cap(encodable_size as nat, m as nat, 13, 4096);
            assert(pow2(m as nat) <= 8192);
            assert(encodable_size + m + 1 <= pow2(m as nat));
        }
        let ghost gm = m as nat;
        let ghost gsize = encodable_size as nat;

        // First pass: append the digits of every candidate column with two
        // or more set bits.
        let mut encode_matrix: Vec<Bitvec> = Vec::new();
        let mut k: usize = 0;
        while k < m
            invariant
                k <= m,
                encode_matrix@.len() == k,
                forall|t: int| 0 <= t < k ==> (#[trigger] encode_matrix@[t]).value() == 0,
            decreases m - k,
        {
            encode_matrix.push(Bitvec(Vec::new()));
            k = k + 1;
        }
        proof {
            assert(encode_matrix@.map_values(|x: Bitvec| x.value()) =~= rows_upto(gm, 0));
        }
        let lim: u64 = 1u64 << (m as u64);
        proof {
            vstd::bits::lemma_u64_pow2_no_overflow(gm);
            vstd::bits::lemma_u64_shl_is_mul(1u64, m as u64);
            lemma_w2count_pow2(gm);
        }
        let mut i: u64 = 1;
        while i <= lim
            invariant
                1 <= i <= lim + 1,
                lim as nat == pow2(gm),
                lim <= 8192,
                1 <= gm <= 13,
                m == gm,
                encodable_size == gsize,
                gsize + gm + 1 <= pow2(gm),
                encode_matrix@.len() == gm,
                encode_matrix@.map_values(|x: Bitvec| x.value()) == rows_upto(gm, (i - 1) as nat),
            decreases lim + 1 - i,
        {
            let c = i.count();
            if c >= 2 {
                let ghost prev = rows_upto(gm, (i - 1) as nat);
                proof {
                    assert(rows_upto(gm, i as nat) == Seq::new(
                        gm,
                        |t: int| 2 * prev[t] + (i as nat / pow2((gm - 1 - t) as nat)) % 2,
                    ));
                }
                let mut k: usize = 0;
                while k < m
                    invariant
                        k <= m,
                        m == gm,
                        1 <= gm <= 13,
                        i >= 1,
                        pop(i as nat) >= 2,
                        prev == rows_upto(gm, (i - 1) as nat),
                        prev.len() == gm,
                        rows_upto(gm, i as nat) == Seq::new(
                            gm,
                            |t: int| 2 * prev[t] + (i as nat / pow2((gm - 1 - t) as nat)) % 2,
                        ),
                        encode_matrix@.len() == gm,
                        forall|t: int|
                            0 <= t < m - k ==> (#[trigger] encode_matrix@[t]).value() == prev[t
                                + k],
                        forall|t: int|
                            m - k <= t < m ==> (#[trigger] encode_matrix@[t]).value()
                                == rows_upto(gm, i as nat)[t - (m - k)],
                    decreases m - k,
                {
                    let sh: u64 = (m - 1 - k) as u64;
                    let bit: u32 = ((i >> sh) & 1) as u32;
                    proof {
                        vstd::bits::lemma_u64_shr_is_div(i, sh);
                        let q0 = i >> sh;
                        assert(q0 & 1 == q0 % 2) by (bit_vector);
                        assert(bit as nat == (i as nat / pow2(sh as nat)) % 2);
                        lemma_p2(1);
                    }
                    let ghost before = encode_matrix@;
                    let mut row = encode_matrix.remove(0);
                    let ghost v0 = row.value();
                    row.shl_assign(1);
                    proof {
                        assert(row.value() == v0 * pow2(1));
                        assert(v0 * pow2(1) == v0 * 2) by (nonlinear_arith)
                            requires
                                pow2(1) == 2,
                        ;
                        assert(v0 == prev[k as int]);
                    }
                    row.add_u32(bit);
                    encode_matrix.push(row);
                    k = k + 1;
                    proof {
                        assert(row.value() == 2 * prev[k - 1] + (i as nat / pow2(
                            (gm - 1 - (k - 1)) as nat,
                        )) % 2);
                        assert(row.value() == rows_upto(gm, i as nat)[k - 1]);
                        assert(forall|t: int|
                            0 <= t < m - k ==> encode_matrix@[t] == before[t + 1]);
                        assert(forall|t: int|
                            m - k <= t < m - 1 ==> encode_matrix@[t] == before[t + 1]);
                        assert(encode_matrix@[m - 1] == row);
                    }
                }
                proof {
                    assert(encode_matrix@.map_values(|x: Bitvec| x.value()) =~= rows_upto(
                        gm,
                        i as nat,
                    ));
                }
            } else {
                proof {
                    assert(rows_upto(gm, i as nat) == rows_upto(gm, (i - 1) as nat));
                }
            }
            i = i + 1;
        }
        proof {
            assert((i - 1) as nat == pow2(gm));
        }

        // Second pass: shift each row past the check field and set the
        // row's dedicated check bit.
        let ghost base = rows_upto(gm, pow2(gm));
        let mut k: usize = 0;
        while k < m
            invariant
                k <= m,
                m == gm,
                1 <= gm <= 13,
                base == rows_upto(gm, pow2(gm)),
                base.len() == gm,
                encode_matrix@.len() == gm,
                forall|t: int|
                    0 <= t < m - k ==> (#[trigger] encode_matrix@[t]).value() == base[t + k],
                forall|t: int|
                    m - k <= t < m ==> (#[trigger] encode_matrix@[t]).value() == spec_rows(gm)[t
                        - (m - k)],
            decreases m - k,
        {
            let sh2: u32 = (m - k) as u32;
            proof {
                vstd::bits::lemma_u32_pow2_no_overflow(sh2 as nat);
                vstd::bits::lemma_u32_shl_is_mul(1u32, sh2);
            }
            let ghost before = encode_matrix@;
            let mut row = encode_matrix.remove(0);
            row.shl_assign(m + 1);
            row.add_u32(1u32 << sh2);
            encode_matrix.push(row);
            k = k + 1;
            proof {
                assert(row.value() == base[k - 1] * pow2(gm + 1) + pow2((gm - (k - 1)) as nat));
                assert(row.value() == spec_rows(gm)[k - 1]);
                assert(forall|t: int| 0 <= t < m - k ==> encode_matrix@[t] == before[t + 1]);
                assert(forall|t: int| m - k <= t < m - 1 ==> encode_matrix@[t] == before[t + 1]);
                assert(encode_matrix@[m - 1] == row);
            }
        }
        proof {
            assert(encode_matrix@.map_values(|x: Bitvec| x.value()) =~= spec_rows(gm));
        }

        // The mask of the whole check field.
        let mut mask = Bitvec(Vec::new());
        let mut k: usize = 0;
        proof {
            lemma_p2(0);
        }
        while k < m + 1
            invariant
                k <= m + 1,
                m == gm,
                1 <= gm <= 13,
                mask.value() == pow2(k as nat) - 1,
            decreases m + 1 - k,
        {
            proof {
                lemma_p2(1);
            }
            let ghost v0 = mask.value();
            mask.shl_assign(1);
            proof {
                assert(mask.value() == v0 * pow2(1));
                assert(v0 * pow2(1) == v0 * 2) by (nonlinear_arith)
                    requires
                        pow2(1) == 2,
                ;
            }
            mask.add_u32(1);
            k = k + 1;
            proof {
                lemma_p2(k as nat);
                assert(mask.value() == v0 * 2 + 1);
                assert(pow2(k as nat) == 2 * pow2((k - 1) as nat));
            }
        }

        // The syndrome of every single-bit error the code covers.
        let top: usize = encodable_size + m;
        let mut syndromes: Vec<u64> = Vec::new();
        let mut e: usize = 0;
        while e <= top
            invariant
                e <= top + 1,
                top == gsize + gm <= 4109,
                m == gm,
                1 <= gm <= 13,
                encodable_size == gsize,
                encode_matrix@.len() == gm,
                encode_matrix@.map_values(|x: Bitvec| x.value()) == spec_rows(gm),
                syndromes@.len() == e,
                forall|t: int|
                    0 <= t < e ==> #[trigger] syndromes@[t] as nat == syndrome_of(gm, t as nat),
            decreases top + 1 - e,
        {
            let err = Bitvec::one_shl(e);
            let s = Self::bin_matrix_product_paritied(&encode_matrix, &err);
            syndromes.push(s);
            e = e + 1;
        }

        proof {
            lemma_syndromes_always_distinct(gm, gsize);
        }

        let codec = SecDedDynamic { encodable_size, m, mask, encode_matrix, syndromes };
        proof {
            assert(codec.rows() == spec_rows(gm));
            assert(codec.wf());
        }
        Ok(codec)
    }
}

impl SecDedCodec for SecDedDynamic {
    /// Everything the constructor established: the rows and the syndrome
    /// table are exactly the ones of the mirrored construction, the
    /// syndromes of all covered single-bit errors are pairwise distinct,
    /// and all widths agree.
    open spec fn wf(&self) -> bool {
        let size = self.encodable_size as nat;
        let m = self.m as nat;
        &&& is_code_width(size, m)
        &&& size <= DYNAMIC_MAX_ENCODABLE
        &&& 1 <= m <= 13
        &&& self.mask.value() == self.mask_val()
        &&& self.encode_matrix@.len() == m
        &&& self.rows() == spec_rows(m)
        &&& self.syndromes@.len() == size + m + 1
        &&& forall|e: int|
            0 <= e <= size + m ==> #[trigger] self.table()[e] == syndrome_of(m, e as nat)
        &&& syndromes_distinct(m, size)
    }

    open spec fn spec_encodable_size(&self) -> nat {
        self.encodable_size as nat
    }

    open spec fn spec_code_size(&self) -> nat {
        self.m as nat + 1
    }

    open spec fn spec_expected_slice_size(&self) -> Option<usize> {
        None
    }

    open spec fn valid_buffer(&self, s: Seq<u8>) -> bool {
        &&& 8 * s.len() >= self.encodable_size as nat + self.m as nat + 1
        &&& s.len() <= 0x1fffffffffffffff
    }

    open spec fn valid_payload(&self, s: Seq<u8>) -> bool {
        &&& self.valid_buffer(s)
        &&& nat_and(be_val(s), self.mask_val()) == 0
        &&& be_val(s) < pow2(self.encodable_size as nat + self.m as nat + 1)
    }

    open spec fn spec_encode(&self, s: Seq<u8>) -> Seq<u8> {
        to_bytes(
            nat_or(be_val(s), mproduct(spec_rows(self.m as nat), be_val(s))),
            s.len(),
        )
    }

    open spec fn spec_decode(&self, s: Seq<u8>) -> Option<Seq<u8>> {
        let v = be_val(s);
        let syn = mproduct(spec_rows(self.m as nat), v);
        if syn == 0 {
            Some(to_bytes(nat_diff(v, self.mask_val()), s.len()))
        } else {
            let idx = first_match(self.table(), syn);
            if idx >= 0 {
                Some(
                    to_bytes(nat_diff(nat_xor(v, pow2(idx as nat)), self.mask_val()), s.len()),
                )
            } else {
                None
            }
        }
    }

    fn encodable_size(&self) -> (r: usize) {
        self.encodable_size
    }

    fn code_size(&self) -> (r: usize) {
        self.m + 1
    }

    fn expected_slice_size(&self) -> (r: Option<usize>) {
        None
    }

    fn encode(&self, data: &mut Vec<u8>) {
        let n = data.len();
        let mut work: Vec<u8> = Vec::new();
        let mut i: usize = 0;
        while i < n
            invariant
                i <= n,
                n == data@.len(),
                data@ == old(data)@,
                work@ == data@.take(i as int),
            decreases n - i,
        {
            let b = data[i];
            work.push(b);
            proof {
                assert(work@ =~= data@.take(i + 1));
            }
            i = i + 1;
        }
        proof {
            assert(data@.take(n as int) =~= data@);
        }
        let mut buffer = Bitvec(work);
        let code = Self::bin_matrix_product_paritied(&self.encode_matrix, &buffer);
        let codevec = Bitvec::from_u64_be(code);
        proof {
            lemma_mproduct_bound(spec_rows(self.m as nat), be_val(old(data)@));
            lemma_small_normalized_len(codevec@, self.m as nat + 1);
            assert(8 * ((self.m as nat + 1 + 7) / 8) >= self.m as nat + 1) by (nonlinear_arith);
            assert(codevec@.len() <= n);
        }
        buffer.or_assign(&codevec);
        proof {
            assert(buffer@.len() == n);
            lemma_to_bytes_exact(buffer@);
        }
        let Bitvec(inner) = buffer;
        *data = inner;
    }

    fn decode(&self, data: &mut Vec<u8>) -> (r: Result<(), ()>) {
        let n = data.len();
        let mut work: Vec<u8> = Vec::new();
        let mut i: usize = 0;
        while i < n
            invariant
                i <= n,
                n == data@.len(),
                data@ == old(data)@,
                work@ == data@.take(i as int),
            decreases n - i,
        {
            let b = data[i];
            work.push(b);
            proof {
                assert(work@ =~= data@.take(i + 1));
            }
            i = i + 1;
        }
        proof {
            assert(data@.take(n as int) =~= data@);
        }
        let mut buffer = Bitvec(work);
        let syndrome = Self::bin_matrix_product_paritied(&self.encode_matrix, &buffer);
        if syndrome == 0 {
            self.mask.mask_not_buffer(data);
            proof {
                lemma_to_bytes_exact(data@);
            }
            return Ok(());
        }
        let count = self.syndromes.len();
        let mut idx: usize = 0;
        while idx < count
            invariant
                idx <= count,
                self.wf(),
                count == self.syndromes@.len(),
                data@ == old(data)@,
                n == data@.len(),
                self.valid_buffer(old(data)@),
                buffer@ == old(data)@,
                syndrome as nat == mproduct(spec_rows(self.m as nat), be_val(old(data)@)),
                syndrome != 0,
                forall|j: int| 0 <= j < idx ==> self.table()[j] != syndrome as nat,
            decreases count - idx,
        {
            if self.syndromes[idx] == syndrome {
                proof {
                    lemma_first_match_found(self.table(), syndrome as nat, idx as int);
                }
                let pattern = Bitvec::one_shl(idx);
                proof {
                    // the correction pattern fits the buffer: idx lies
                    // within the covered bits, which the buffer holds
                    assert(idx < self.encodable_size + self.m + 1);
                    assert(8 * (idx / 8) <= idx) by (nonlinear_arith)
                        requires
                            idx == 8 * (idx / 8) + idx % 8,
                    ;
                    assert(idx / 8 + 1 <= n);
                }
                buffer.xor_assign(&pattern);
                buffer.mask_not(&self.mask);
                proof {
                    assert(buffer@.len() == n);
                    lemma_to_bytes_exact(buffer@);
                }
                let Bitvec(inner) = buffer;
                *data = inner;
                return Ok(());
            }
            idx = idx + 1;
        }
        proof {
            lemma_first_match_none(self.table(), syndrome as nat);
        }
        Err(())
    }
}

/// Common ground of the codec laws: the encoded word of a valid payload,
/// its value, and the facts that tie them together.
proof fn lemma_encode_facts_dynamic(c: &SecDedDynamic, s: Seq<u8>)
    requires
        c.wf(),
        c.valid_payload(s),
    ensures
        ({
            let m = c.m as nat;
            let v = be_val(s);
            let code = mproduct(spec_rows(m), v);
            let enc = v + code;
            &&& spec_rows(m).len() == m
            &&& code < pow2(m + 1)
            &&& nat_or(v, code) == enc
            &&& nat_xor(v, code) == enc
            &&& v % pow2(m + 1) == 0
            &&& enc < pow2(c.encodable_size as nat + m + 1)
            &&& enc < pow2(8 * s.len())
            &&& be_val(c.spec_encode(s)) == enc
            &&& c.spec_encode(s).len() == s.len()
            &&& mproduct(spec_rows(m), enc) == 0
            &&& nat_diff(enc, c.mask_val()) == v
        }),
{
    let m = c.m as nat;
    let size = c.encodable_size as nat;
    let v = be_val(s);
    let code = mproduct(spec_rows(m), v);
    lemma_mproduct_bound(spec_rows(m), v);
    lemma_payload_disjoint(v, code, m);
    lemma_encode_consistent(m, v);
    lemma_encoded_bound(m, size, v, code);
    if size + m + 1 < 8 * s.len() {
        vstd::arithmetic::power2::lemma_pow2_strictly_increases(size + m + 1, 8 * s.len());
    }
    lemma_to_bytes_val((v + code) as nat, s.len());
    vstd::arithmetic::div_mod::lemma_small_mod((v + code) as nat, pow2(8 * s.len()));
}

/// Round trip without error: decoding an encoded valid payload succeeds
/// and returns the payload unchanged, with the check field cleared.
pub proof fn lemma_round_trip_dynamic(c: &SecDedDynamic, s: Seq<u8>)
    requires
        c.wf(),
        c.valid_payload(s),
    ensures
        c.spec_decode(c.spec_encode(s)) == Some(s),
{
    let m = c.m as nat;
    let v = be_val(s);
    let code = mproduct(spec_rows(m), v);
    let enc = v + code;
    lemma_encode_facts_dynamic(c, s);
    let t = c.spec_encode(s);
    assert(mproduct(spec_rows(m), be_val(t)) == 0);
    assert(c.spec_decode(t) == Some(to_bytes(nat_diff(enc, c.mask_val()), s.len())));
    lemma_to_bytes_exact(s);
}

/// Single-bit correction: flipping any covered bit of an encoded word and
/// decoding recovers the original payload.
pub proof fn lemma_single_bit_correction_dynamic(c: &SecDedDynamic, s: Seq<u8>, e: nat)
    requires
        c.wf(),
        c.valid_payload(s),
        e < c.spec_encodable_size() + c.spec_code_size(),
    ensures
        c.spec_decode(flip_bit(c.spec_encode(s), e)) == Some(s),
{
    let m = c.m as nat;
    let size = c.encodable_size as nat;
    let v = be_val(s);
    let code = mproduct(spec_rows(m), v);
    let enc = v + code;
    lemma_encode_facts_dynamic(c, s);
    let t = c.spec_encode(s);
    let fv = nat_xor(enc, pow2(e));
    if e < 8 * s.len() {
        vstd::arithmetic::power2::lemma_pow2_strictly_increases(e, 8 * s.len());
    }
    lemma_ops_bound(enc, pow2(e), 8 * s.len());
    lemma_to_bytes_val(fv, s.len());
    vstd::arithmetic::div_mod::lemma_small_mod(fv, pow2(8 * s.len()));
    assert(flip_bit(t, e) == to_bytes(fv, s.len()));
    assert(be_val(flip_bit(t, e)) == fv);
    lemma_mproduct_linear(spec_rows(m), enc, pow2(e));
    lemma_zero_ops(syndrome_of(m, e));
    assert(mproduct(spec_rows(m), fv) == syndrome_of(m, e));
    assert(forall|k: int| 0 <= k < m ==> #[trigger] spec_rows(m)[k] % 2 == 0) by {
        assert forall|k: int| 0 <= k < m implies #[trigger] spec_rows(m)[k] % 2 == 0 by {
            lemma_spec_rows_structure(m, k);
        }
    }
    lemma_mproduct_bit0(spec_rows(m));
    lemma_p2(0);
    assert(syndrome_of(m, 0) == 0);
    if e == 0 {
        assert(c.spec_decode(flip_bit(t, e)) == Some(
            to_bytes(nat_diff(fv, c.mask_val()), s.len()),
        ));
        lemma_p2(m + 1);
        lemma_p2(m);
        let ph = v / pow2(m + 1);
        vstd::arithmetic::div_mod::lemma_fundamental_div_mod(v as int, pow2(m + 1) as int);
        vstd::arithmetic::mul::lemma_mul_is_commutative(pow2(m + 1) as int, ph as int);
        assert(v == ph * pow2(m + 1));
        assert(1 < pow2(m + 1));
        crate::bits::lemma_ops_chunk(ph, code, 0, 1, m + 1);
        lemma_zero_ops(ph);
        assert(fv == ph * pow2(m + 1) + nat_xor(code, 1));
        lemma_ops_bound(code, 1, m + 1);
        crate::bits::lemma_diff_low_mask(ph, nat_xor(code, 1), m + 1);
        assert(nat_diff(fv, c.mask_val()) == v);
        lemma_to_bytes_exact(s);
    } else {
        assert(syndrome_of(m, 0) != syndrome_of(m, e));
        let syn = syndrome_of(m, e);
        assert(syn != 0);
        assert(c.table()[e as int] == syn);
        assert(forall|j: int| 0 <= j < e ==> c.table()[j] != syn) by {
            assert forall|j: int| 0 <= j < e implies c.table()[j] != syn by {
                assert(c.table()[j] == syndrome_of(m, j as nat));
                assert(syndrome_of(m, j as nat) != syndrome_of(m, e));
            }
        }
        lemma_first_match_found(c.table(), syn, e as int);
        assert(c.spec_decode(flip_bit(t, e)) == Some(
            to_bytes(nat_diff(nat_xor(fv, pow2(e)), c.mask_val()), s.len()),
        ));
        lemma_xor_involution(enc, pow2(e));
        assert(nat_xor(fv, pow2(e)) == enc);
        lemma_to_bytes_exact(s);
    }
}

/// Double-bit detection: no two distinct covered single-bit errors share a
/// syndrome, so a double flip never looks like a clean word.
pub proof fn lemma_double_error_detected_dynamic(c: &SecDedDynamic, s: Seq<u8>, e1: nat, e2: nat)
    requires
        c.wf(),
        c.valid_payload(s),
        e1 < e2,
        e2 < c.spec_encodable_size() + c.spec_code_size(),
    ensures
        syndrome_of(c.m as nat, e1) != syndrome_of(c.m as nat, e2),
        mproduct(
            spec_rows(c.m as nat),
            nat_xor(nat_xor(be_val(c.spec_encode(s)), pow2(e1)), pow2(e2)),
        ) != 0,
{
    let m = c.m as nat;
    let v = be_val(s);
    let enc = v + mproduct(spec_rows(m), v);
    lemma_encode_facts_dynamic(c, s);
    let s1 = syndrome_of(m, e1);
    let s2 = syndrome_of(m, e2);
    lemma_mproduct_linear(spec_rows(m), enc, pow2(e1));
    lemma_zero_ops(s1);
    assert(mproduct(spec_rows(m), nat_xor(enc, pow2(e1))) == s1);
    lemma_mproduct_linear(spec_rows(m), nat_xor(enc, pow2(e1)), pow2(e2));
    assert(mproduct(spec_rows(m), nat_xor(nat_xor(enc, pow2(e1)), pow2(e2))) == nat_xor(s1, s2));
    if nat_xor(s1, s2) == 0 {
        lemma_xor_involution(s1, s2);
        lemma_zero_ops(s2);
        assert(s1 == s2);
        assert(false);
    }
}

/// A vector without leading zero bytes that holds a value below
/// `pow2(bits)` has at most `(bits + 7) / 8` bytes.
pub proof fn lemma_small_normalized_len(s: Seq<u8>, bits: nat)
    requires
        s.len() == 0 || s[0] != 0,
        be_val(s) < pow2(bits),
    ensures
        s.len() <= (bits + 7) / 8,
{
    if s.len() > (bits + 7) / 8 {
        crate::bitvec::lemma_be_val_split(s, 1);
        assert(s.take(1) =~= seq![s[0]]);
        crate::bitvec::lemma_be_val_one(s[0]);
        let k = (8 * (s.len() - 1)) as nat;
        lemma_p2(k);
        assert(be_val(s) >= pow2(k)) by (nonlinear_arith)
            requires
                be_val(s) == (s[0] as nat) * pow2(k) + be_val(s.skip(1)),
                s[0] as nat >= 1,
        ;
        assert(8 * ((bits + 7) / 8) >= bits) by (nonlinear_arith);
        if bits < k {
            vstd::arithmetic::power2::lemma_pow2_strictly_increases(bits, k);
        }
        assert(false);
    }
}

} // verus!
