use secded::bitwise::Bitwise;

#[test]
fn test_count() {
    assert_eq!(1u128.count(), 1);
    assert_eq!(2u128.count(), 1);
    assert_eq!(3u128.count(), 2);
    assert_eq!([2u8, 2, 5].count(), 4);
    assert_eq!([2u8, 2, 8].count(), 3);
}

#[test]
fn test_parity() {
    assert_eq!(1u128.parity(), 1);
    assert_eq!(2u128.parity(), 1);
    assert_eq!(3u128.parity(), 0);
    assert_eq!([2u8, 2, 5].parity(), 0);
    assert_eq!([2u8, 2, 8].parity(), 1);
}

#[test]
fn test_count_parity() {
    for x in (0..100).map(|x| x * (u128::MAX / 100)) {
        assert_eq!(x.parity(), x.count() % 2);
    }
}

#[test]
fn test_count_u64_extremes() {
    assert_eq!(0u64.count(), 0);
    assert_eq!(u64::MAX.count(), 64);
    assert_eq!(u64::MAX.parity(), 0);
    assert_eq!(0x8000_0000_0000_0001u64.count(), 2);
}

#[test]
fn test_count_u8() {
    assert_eq!(0u8.count(), 0);
    assert_eq!(255u8.count(), 8);
    assert_eq!(255u8.parity(), 0);
    assert_eq!(7u8.parity(), 1);
}
