//! A Single-Error-Correction, Double-Error-Detection (SECDED) codec.
//!
//! A codec instance for `size` payload bits appends a Hamming-derived check
//! field of `m + 1` bits to the low end of a fixed-width buffer, so that a
//! later inspection can correct any single flipped bit and detect any
//! double flip. Three representations cover growing payload widths: a
//! 64-bit-backed codec for up to 57 payload bits, a 128-bit-backed codec
//! for up to 120 bits, and an arbitrary-width codec backed by a byte-vector
//! integer beyond that.

use vstd::prelude::*;

pub mod bits;
pub mod buffer;
pub mod bitwise;
pub mod bitvec;
pub mod hamming;
pub mod secded_64;
pub mod secded_128;
pub mod secded_dynamic;

verus! {

/// Why construction of a codec failed.
#[derive(Clone, Copy, Debug, PartialEq, Eq, Structural)]
pub enum CodecError {
    /// The requested payload size exceeds what the representation holds.
    CapacityExceeded,
}

/// The common surface of the codecs: encode a payload in place, decode and
/// correct in place.
///
/// Each implementation defines its own well-formedness `wf`, its buffer
/// and payload validity, and the two spec-level transforms `spec_encode`
/// and `spec_decode` that pin down exactly what the executable methods do
/// to the buffer.
pub trait SecDedCodec: Sized {
    /// The constructor established this; every method keeps it.
    spec fn wf(&self) -> bool;

    /// Number of payload bits the codec carries.
    spec fn spec_encodable_size(&self) -> nat;

    /// Width of the appended check field in bits.
    spec fn spec_code_size(&self) -> nat;

    /// The buffer length the implementation would reject at run time, if
    /// it requires one.
    spec fn spec_expected_slice_size(&self) -> Option<usize>;

    /// A buffer this codec can decode: the length fits the representation.
    spec fn valid_buffer(&self, s: Seq<u8>) -> bool;

    /// A buffer this codec can encode: `valid_buffer`, the reserved check
    /// field is clear, and nothing sits above the covered bits.
    spec fn valid_payload(&self, s: Seq<u8>) -> bool;

    /// What encoding writes into the buffer.
    spec fn spec_encode(&self, s: Seq<u8>) -> Seq<u8>;

    /// What decoding leaves in the buffer: the corrected payload with the
    /// check field cleared, or nothing when two errors were detected.
    spec fn spec_decode(&self, s: Seq<u8>) -> Option<Seq<u8>>;

    /// Number of payload bits the codec carries.
    fn encodable_size(&self) -> (r: usize)
        requires
            self.wf(),
        ensures
            r as nat == self.spec_encodable_size(),
    ;

    /// Width of the appended check field in bits.
    fn code_size(&self) -> (r: usize)
        requires
            self.wf(),
        ensures
            r as nat == self.spec_code_size(),
    ;

    /// `Some(size)` when the implementation accepts only buffers of
    /// exactly `size` bytes.
    fn expected_slice_size(&self) -> (r: Option<usize>)
        requires
            self.wf(),
        ensures
            r == self.spec_expected_slice_size(),
    ;

    /// Encodes the buffer in place: computes the check field over the
    /// payload bits and ors it into the reserved low bits.
    fn encode(&self, data: &mut Vec<u8>)
        requires
            self.wf(),
            self.valid_payload(old(data)@),
        ensures
            final(data)@ == self.spec_encode(old(data)@),
    ;

    /// Decodes the buffer in place. `Ok` means the buffer was consistent
    /// or a single flipped bit was corrected; the check field is cleared.
    /// `Err` means two errors were detected; the buffer is unchanged.
    fn decode(&self, data: &mut Vec<u8>) -> (r: Result<(), ()>)
        requires
            self.wf(),
            self.valid_buffer(old(data)@),
        ensures
            r is Ok <==> self.spec_decode(old(data)@) is Some,
            r is Ok ==> Some(final(data)@) == self.spec_decode(old(data)@),
            r is Err ==> final(data)@ == old(data)@,
    ;
}

/// A codec of whichever representation fits the requested payload size:
/// 64-bit-backed up to 57 bits, 128-bit-backed up to 120 bits, and the
/// arbitrary-width representation beyond.
#[allow(non_camel_case_types)]
pub enum SECDED {
    U64(secded_64::SecDed64),
    U128(secded_128::SecDed128),
    DYNAMIC(secded_dynamic::SecDedDynamic),
}

impl SECDED {
    /// Picks the representation for `encodable_size` payload bits and
    /// builds its codec.
    pub fn new(encodable_size: usize) -> (r: Result<SECDED, CodecError>)
        ensures
            r is Ok <==> encodable_size <= secded_dynamic::DYNAMIC_MAX_ENCODABLE,
            r matches Ok(c) ==> c.wf() && c.spec_encodable_size() == encodable_size,
            r matches Ok(c) ==> (c is U64 <==> encodable_size <= 57),
            r matches Ok(c) ==> (c is U128 <==> 58 <= encodable_size <= 120),
            r matches Ok(c) ==> (c is DYNAMIC <==> encodable_size > 120),
    {
        if encodable_size <= 57 {
            match secded_64::SecDed64::new(encodable_size) {
                Ok(c) => Ok(SECDED::U64(c)),
                Err(e) => Err(e),
            }
        } else if encodable_size <= 120 {
            match secded_128::SecDed128::new(encodable_size) {
                Ok(c) => Ok(SECDED::U128(c)),
                Err(e) => Err(e),
            }
        } else {
            match secded_dynamic::SecDedDynamic::new(encodable_size) {
                Ok(c) => Ok(SECDED::DYNAMIC(c)),
                Err(e) => Err(e),
            }
        }
    }
}

impl SecDedCodec for SECDED {
    open spec fn wf(&self) -> bool {
        match self {
            SECDED::U64(c) => c.wf(),
            SECDED::U128(c) => c.wf(),
            SECDED::DYNAMIC(c) => c.wf(),
        }
    }

    open spec fn spec_encodable_size(&self) -> nat {
        match self {
            SECDED::U64(c) => c.spec_encodable_size(),
            SECDED::U128(c) => c.spec_encodable_size(),
            SECDED::DYNAMIC(c) => c.spec_encodable_size(),
        }
    }

    open spec fn spec_code_size(&self) -> nat {
        match self {
            SECDED::U64(c) => c.spec_code_size(),
            SECDED::U128(c) => c.spec_code_size(),
            SECDED::DYNAMIC(c) => c.spec_code_size(),
        }
    }

    open spec fn spec_expected_slice_size(&self) -> Option<usize> {
        match self {
            SECDED::U64(c) => c.spec_expected_slice_size(),
            SECDED::U128(c) => c.spec_expected_slice_size(),
            SECDED::DYNAMIC(c) => c.spec_expected_slice_size(),
        }
    }

    open spec fn valid_buffer(&self, s: Seq<u8>) -> bool {
        match self {
            SECDED::U64(c) => c.valid_buffer(s),
            SECDED::U128(c) => c.valid_buffer(s),
            SECDED::DYNAMIC(c) => c.valid_buffer(s),
        }
    }

    open spec fn valid_payload(&self, s: Seq<u8>) -> bool {
        match self {
            SECDED::U64(c) => c.valid_payload(s),
            SECDED::U128(c) => c.valid_payload(s),
            SECDED::DYNAMIC(c) => c.valid_payload(s),
        }
    }

    open spec fn spec_encode(&self, s: Seq<u8>) -> Seq<u8> {
        match self {
            SECDED::U64(c) => c.spec_encode(s),
            SECDED::U128(c) => c.spec_encode(s),
            SECDED::DYNAMIC(c) => c.spec_encode(s),
        }
    }

    open spec fn spec_decode(&self, s: Seq<u8>) -> Option<Seq<u8>> {
        match self {
            SECDED::U64(c) => c.spec_decode(s),
            SECDED::U128(c) => c.spec_decode(s),
            SECDED::DYNAMIC(c) => c.spec_decode(s),
        }
    }

    fn encodable_size(&self) -> (r: usize) {
        match self {
            SECDED::U64(c) => c.encodable_size(),
            SECDED::U128(c) => c.encodable_size(),
            SECDED::DYNAMIC(c) => c.encodable_size(),
        }
    }

    fn code_size(&self) -> (r: usize) {
        match self {
            SECDED::U64(c) => c.code_size(),
            SECDED::U128(c) => c.code_size(),
            SECDED::DYNAMIC(c) => c.code_size(),
        }
    }

    fn expected_slice_size(&self) -> (r: Option<usize>) {
        match self {
            SECDED::U64(c) => c.expected_slice_size(),
            SECDED::U128(c) => c.expected_slice_size(),
            SECDED::DYNAMIC(c) => c.expected_slice_size(),
        }
    }

    fn encode(&self, data: &mut Vec<u8>) {
        match self {
            SECDED::U64(c) => c.encode(data),
            SECDED::U128(c) => c.encode(data),
            SECDED::DYNAMIC(c) => c.encode(data),
        }
    }

    fn decode(&self, data: &mut Vec<u8>) -> (r: Result<(), ()>) {
        match self {
            SECDED::U64(c) => c.decode(data),
            SECDED::U128(c) => c.decode(data),
            SECDED::DYNAMIC(c) => c.decode(data),
        }
    }
}

} // verus!
