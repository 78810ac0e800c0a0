use secded::bitvec::Bitvec;
use secded::bitwise::Bitwise;
use std::collections::hash_map::DefaultHasher;
use std::hash::{Hash, Hasher};

#[test]
fn from() {
    let b: Bitvec = Bitvec::from_bytes([1u8, 2, 3].as_ref());
    assert_eq!(Bitvec(vec![1, 2, 3]), b);
}

#[test]
fn mask_not() {
    let mut a = Bitvec(vec![0xff, 0xff]);
    a.mask_not(&Bitvec(vec![0x0f]));
    assert_eq!(a, Bitvec(vec![0xff, 0xf0]));
}

#[test]
fn hash() {
    let mut vec = Bitvec(vec![1]);
    for i in 0..64 {
        let mut hasher = DefaultHasher::new();
        vec.hash(&mut hasher);
        let hash = hasher.finish();
        let mut vec2 = vec.clone();
        vec2.shl_assign(1);
        for _ in (i + 1)..64 {
            let mut hasher = DefaultHasher::new();
            vec2.hash(&mut hasher);
            assert_ne!(hash, hasher.finish());
            vec2.shl_assign(1);
        }
        vec.shl_assign(1);
    }
}

#[test]
fn eq() {
    assert_eq!(Bitvec(vec![0, 3, 2, 0]), Bitvec(vec![3, 2, 0]));
    assert_ne!(Bitvec(vec![1, 0]), Bitvec(vec![0, 1]))
}

#[test]
fn cmp() {
    assert!(Bitvec(vec![3, 2, 0]) < Bitvec(vec![4, 3, 2, 0]));
    assert!(Bitvec(vec![3, 2, 0]) < Bitvec(vec![3, 2, 1]));
    assert!(Bitvec(vec![0, 3]) < Bitvec(vec![5]));
}

#[test]
fn and_u8() {
    for _ in 0..100000 {
        let (x, y): (u64, u8) = (rand::random(), rand::random_range(0..64));
        let expected = x as u8 & y;
        let x = Bitvec::from_u64_be(x);
        let x = x.and_u8(y);
        assert_eq!(expected, x);
    }
}

#[test]
fn and() {
    for _ in 0..100000 {
        let (x, y): (u64, u64) = (rand::random(), rand::random_range(0..64));
        let expected = x & y;
        let x = Bitvec::from_u64_be(x);
        let x = x.and(&Bitvec::from_u64_be(y));
        assert_eq!(expected, x.to_u64_be());
    }
}

#[test]
fn add() {
    for _ in 0..100000 {
        let (x, y): (u64, u32) = (rand::random(), rand::random_range(0..64));
        let expected = x.wrapping_add(y as u64);
        let mut x = Bitvec::from_u64_be(x);
        x.add_u32(y);
        assert_eq!(expected, x.to_u64_be());
    }
}

#[test]
fn shr() {
    for _ in 0..100000 {
        let (x, y): (u64, usize) = (rand::random(), rand::random_range(0..64));
        let expected = x >> y;
        let mut x = Bitvec::from_u64_be(x);
        x.shr_assign(y);
        assert_eq!(expected, x.to_u64_be());
    }
}

#[test]
fn shl() {
    for _ in 0..100000 {
        let (x, y): (u64, usize) = (rand::random(), rand::random_range(0..64));
        let expected = x << y;
        let mut x = Bitvec::from_u64_be(x);
        x.shl_assign(y);
        assert_eq!(expected, x.to_u64_be());
    }
}

#[test]
fn xor() {
    for _ in 0..100000 {
        let (x, y): (u64, u64) = (rand::random(), rand::random());
        let expected = x ^ y;
        let mut x = Bitvec::from_u64_be(x);
        x.xor_assign(&Bitvec::from_u64_be(y));
        assert_eq!(expected, x.to_u64_be());
    }
}

#[test]
fn add_vec() {
    for _ in 0..10000 {
        let (x, y): (u64, u64) = (rand::random::<u64>() >> 1, rand::random::<u64>() >> 1);
        let expected = x + y;
        let mut x = Bitvec::from_u64_be(x);
        x.add_assign_vec(&Bitvec::from_u64_be(y));
        assert_eq!(expected, x.to_u64_be());
    }
}

#[test]
fn or_vec() {
    for _ in 0..10000 {
        let (x, y): (u64, u64) = (rand::random(), rand::random());
        let expected = x | y;
        let mut x = Bitvec::from_u64_be(x);
        x.or_assign(&Bitvec::from_u64_be(y));
        assert_eq!(expected, x.to_u64_be());
    }
}

#[test]
fn nth_bit() {
    let v = Bitvec(vec![0x80, 0x01]);
    assert_eq!(v.nth_bit_from_right(0), 1);
    assert_eq!(v.nth_bit_from_right(1), 0);
    assert_eq!(v.nth_bit_from_right(15), 1);
    assert_eq!(v.nth_bit_from_right(14), 0);
}

#[test]
fn null_vectors() {
    assert!(Bitvec(vec![]).is_null());
    assert!(Bitvec(vec![0, 0, 0]).is_null());
    assert!(!Bitvec(vec![0, 1, 0]).is_null());
}

#[test]
fn one_shl_values() {
    assert_eq!(Bitvec::one_shl(0).to_u64_be(), 1);
    assert_eq!(Bitvec::one_shl(7).to_u64_be(), 128);
    assert_eq!(Bitvec::one_shl(8).to_u64_be(), 256);
    assert_eq!(Bitvec::one_shl(63).to_u64_be(), 1u64 << 63);
}

#[test]
fn mask_not_buffer_clears() {
    let mask = Bitvec(vec![0x7f]);
    let mut buffer = vec![0xab, 0xcd];
    mask.mask_not_buffer(&mut buffer);
    assert_eq!(buffer, vec![0xab, 0x80]);
}
