use secded::{CodecError, SecDedCodec, SECDED};
use secded::secded_128::SecDed128;
use secded::secded_64::SecDed64;
use secded::secded_dynamic::SecDedDynamic;

#[test]
fn secded_64_codec() {
    let secded = SecDed64::new(57).unwrap();
    let expected = [0, 0, 0, 0, 5, 0, 0, 0];
    let mut encode_buffer = expected.to_vec();
    secded.encode(&mut encode_buffer);
    let mut should_panic = false;
    for i in 0..64 {
        let mut local_buffer = encode_buffer.clone();
        local_buffer[i / 8] ^= 1 << (i % 8);
        match secded.decode(&mut local_buffer) {
            Ok(()) => {
                if local_buffer != expected {
                    println!("{:?} != {:?}", local_buffer, expected);
                    should_panic = true;
                }
            }
            Err(()) => {
                println!("{:?} Decode Failed", local_buffer);
                should_panic = true;
            }
        };
    }
    assert!(!should_panic)
}

#[test]
fn secded_128_codec() {
    let hamming = SecDed128::new(120).unwrap();
    let mut test_value = [0u8; 16];
    test_value[12] = 5;
    let mut buffer = test_value.to_vec();
    hamming.encode(&mut buffer);
    buffer[2] ^= 1;
    hamming.decode(&mut buffer).unwrap();
    assert_eq!(&test_value[..15], &buffer[..15])
}

#[test]
fn bin_matrix() {
    let dynamic = SecDedDynamic::new(57).unwrap();
    let fixed = SecDed64::new(57).unwrap();
    for (i, x) in dynamic.encode_matrix.iter().enumerate() {
        assert_eq!(fixed.encode_matrix[i], x.to_u64_be())
    }
}

#[test]
fn secded_dynamic_codec() {
    let secded = SecDedDynamic::new(57).unwrap();
    let expected = [0, 0, 0, 0, 5, 0, 0, 0];
    let mut encode_buffer = expected.to_vec();
    secded.encode(&mut encode_buffer);
    let mut should_panic = false;
    for i in 0..64 {
        let mut local_buffer = encode_buffer.clone();
        local_buffer[i / 8] ^= 1 << (i % 8);
        match secded.decode(&mut local_buffer) {
            Ok(()) => {
                if local_buffer != expected {
                    println!("{:?} != {:?}", local_buffer, expected);
                    should_panic = true;
                }
            }
            Err(()) => {
                println!("{:?} Decode Failed", local_buffer);
                should_panic = true;
            }
        };
    }
    assert!(!should_panic)
}

#[test]
fn capacity_boundary() {
    assert!(SecDed64::new(57).is_ok());
    assert_eq!(SecDed64::new(58).err(), Some(CodecError::CapacityExceeded));
    assert!(SecDed128::new(58).is_ok());
    assert!(SecDed128::new(120).is_ok());
    assert_eq!(SecDed128::new(121).err(), Some(CodecError::CapacityExceeded));
    assert!(SecDedDynamic::new(121).is_ok());
    assert_eq!(
        SecDedDynamic::new(4097).err(),
        Some(CodecError::CapacityExceeded)
    );
    assert!(matches!(SECDED::new(57), Ok(SECDED::U64(_))));
    assert!(matches!(SECDED::new(58), Ok(SECDED::U128(_))));
    assert!(matches!(SECDED::new(121), Ok(SECDED::DYNAMIC(_))));
    assert!(SECDED::new(4097).is_err());
}

#[test]
fn high_bytes_scenario() {
    let secded = SecDed64::new(57).unwrap();
    let expected = [0, 0, 0, 0, 5, 0, 0];
    let mut buffer = vec![0u8; 8];
    buffer[..7].clone_from_slice(&expected);
    secded.encode(&mut buffer);
    for i in 0..64 {
        let mut local_buffer = buffer.clone();
        local_buffer[i / 8] ^= 1 << (i % 8);
        assert_eq!(secded.decode(&mut local_buffer), Ok(()));
        assert_eq!(expected, local_buffer[..7]);
    }
}

#[test]
fn facade_roundtrip() {
    for size in [20usize, 57, 58, 120, 121, 200] {
        let secded = SECDED::new(size).unwrap();
        let bytes = (secded.encodable_size() + secded.code_size() + 7) / 8;
        let len = match secded.expected_slice_size() {
            Some(n) => n,
            None => bytes,
        };
        let mut buffer = vec![0u8; len];
        buffer[len - 2] = 4;
        let expected = buffer.clone();
        secded.encode(&mut buffer);
        assert_eq!(secded.decode(&mut buffer), Ok(()));
        assert_eq!(buffer, expected);
    }
}

#[test]
fn getters() {
    let secded = SecDed64::new(57).unwrap();
    assert_eq!(secded.encodable_size(), 57);
    assert_eq!(secded.code_size(), 7);
    assert_eq!(secded.expected_slice_size(), Some(8));
    let secded = SecDed128::new(120).unwrap();
    assert_eq!(secded.encodable_size(), 120);
    assert_eq!(secded.code_size(), 8);
    assert_eq!(secded.expected_slice_size(), Some(16));
    let secded = SecDedDynamic::new(200).unwrap();
    assert_eq!(secded.encodable_size(), 200);
    assert_eq!(secded.code_size(), 9);
    assert_eq!(secded.expected_slice_size(), None);
}

#[test]
fn double_flips_never_pass_silently() {
    let secded = SecDed64::new(57).unwrap();
    let mut buffer = vec![0u8; 8];
    buffer[4] = 5;
    let payload = buffer.clone();
    secded.encode(&mut buffer);
    // Flip two distinct payload bits: decoding either reports an
    // uncorrectable error or mis-corrects to a different payload, but it
    // never returns the original payload as if nothing had happened.
    for i in 7..64 {
        for j in (i + 1)..64 {
            let mut local = buffer.clone();
            local[7 - i / 8] ^= 1 << (i % 8);
            local[7 - j / 8] ^= 1 << (j % 8);
            if secded.decode(&mut local) == Ok(()) {
                assert_ne!(local, payload);
            }
        }
    }
}

#[test]
fn double_flip_detected_as_error() {
    // With a payload far below the capacity of the matrix, some double
    // flips produce a syndrome that matches no single-bit error at all,
    // and decode reports them as uncorrectable.
    let secded = SecDed64::new(8).unwrap();
    let total = secded.encodable_size() + secded.code_size();
    let mut buffer = vec![0u8; 8];
    buffer[6] = 3;
    secded.encode(&mut buffer);
    let mut errors = 0;
    for i in 0..total {
        for j in (i + 1)..total {
            let mut local = buffer.clone();
            local[7 - i / 8] ^= 1 << (i % 8);
            local[7 - j / 8] ^= 1 << (j % 8);
            if secded.decode(&mut local) == Err(()) {
                errors += 1;
            }
        }
    }
    assert!(errors > 0);
}

#[test]
fn syndromes_pairwise_distinct() {
    let secded = SecDed64::new(57).unwrap();
    for i in 0..64 {
        for j in (i + 1)..64 {
            assert_ne!(secded.syndromes[i], secded.syndromes[j]);
        }
    }
    assert_eq!(secded.syndromes[0], 0);
}

#[test]
fn check_row_count_formula() {
    // The check field has m + 1 bits, for the smallest m with
    // 2^m - m - 1 >= encodable_size.
    let boundaries = [
        (0usize, 2usize),
        (1, 3),
        (2, 4),
        (4, 4),
        (5, 5),
        (11, 5),
        (12, 6),
        (26, 6),
        (27, 7),
        (57, 7),
        (58, 8),
        (120, 8),
        (121, 9),
        (247, 9),
        (248, 10),
    ];
    for (size, code_size) in boundaries {
        let secded = SECDED::new(size).unwrap();
        assert_eq!(secded.code_size(), code_size);
        assert_eq!(secded.encodable_size(), size);
    }
}
