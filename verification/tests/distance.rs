use hnsw::distance::hamming_bytes;
use hnsw::{Distance, Euclidean, Hamming};

struct Steps(u32);

impl Distance for Steps {
    fn distance(lhs: &Self, rhs: &Self) -> u32 {
        if lhs.0 < rhs.0 {
            rhs.0 - lhs.0
        } else {
            lhs.0 - rhs.0
        }
    }
}

#[test]
fn a_distance_of_the_caller() {
    assert_eq!(Steps::distance(&Steps(3), &Steps(10)), 7);
    assert_eq!(Steps::distance(&Steps(3), &Steps(3)), 0);
}

#[test]
fn hamming_of_u8() {
    assert_eq!(Hamming::<u8>::distance(&Hamming(0b1010), &Hamming(0b0110)), 2);
    assert_eq!(Hamming::<u8>::distance(&Hamming(0), &Hamming(0xFF)), 8);
    assert_eq!(Hamming::<u8>::distance(&Hamming(0x5A), &Hamming(0x5A)), 0);
}

#[test]
fn hamming_of_u16() {
    assert_eq!(Hamming::<u16>::distance(&Hamming(0x00FF), &Hamming(0x0F0F)), 8);
    assert_eq!(Hamming::<u16>::distance(&Hamming(0), &Hamming(0xFFFF)), 16);
    assert_eq!(Hamming::<u16>::distance(&Hamming(0x8000), &Hamming(0x0001)), 2);
}

#[test]
fn hamming_of_u32() {
    assert_eq!(Hamming::<u32>::distance(&Hamming(0xDEAD_BEEF), &Hamming(0xDEAD_BEEF)), 0);
    assert_eq!(Hamming::<u32>::distance(&Hamming(0), &Hamming(u32::MAX)), 32);
    assert_eq!(Hamming::<u32>::distance(&Hamming(0xF000_000F), &Hamming(0x0000_0000)), 8);
}

#[test]
fn hamming_of_u64() {
    assert_eq!(Hamming::<u64>::distance(&Hamming(0), &Hamming(u64::MAX)), 64);
    assert_eq!(Hamming::<u64>::distance(&Hamming(1 << 63), &Hamming(1)), 2);
    assert_eq!(Hamming::<u64>::distance(&Hamming(0xAAAA_AAAA_AAAA_AAAA), &Hamming(0x5555_5555_5555_5555)), 64);
}

#[test]
fn hamming_of_u128() {
    assert_eq!(Hamming::<u128>::distance(&Hamming(0), &Hamming(u128::MAX)), 128);
    assert_eq!(Hamming::<u128>::distance(&Hamming(1 << 127), &Hamming(1)), 2);
    assert_eq!(Hamming::<u128>::distance(&Hamming(7), &Hamming(7)), 0);
    assert_eq!(Hamming::<u128>::distance(&Hamming(0xFF << 60), &Hamming(0)), 8);
}

#[test]
fn hamming_is_the_same_both_ways() {
    let mut x = 1u128;
    for _ in 0..50 {
        x = x.wrapping_mul(0x2360_ED05_1FC6_5DA4_4385_DF64_9FCC_F645).wrapping_add(99);
        let y = x.rotate_left(17) ^ 0xABCD;
        let a = Hamming::<u128>::distance(&Hamming(x), &Hamming(y));
        assert_eq!(a, Hamming::<u128>::distance(&Hamming(y), &Hamming(x)));
        assert!(a <= 128);
        assert_eq!(a, (x ^ y).count_ones());
    }
}

#[test]
fn hamming_of_byte_strings() {
    assert_eq!(hamming_bytes(&[], &[]), 0);
    assert_eq!(hamming_bytes(&[0xFF, 0x00, 0x0F], &[0x00, 0x00, 0xFF]), 12);
    assert_eq!(hamming_bytes(&[0xFF, 0xFF], &[0x00]), 8);
    assert_eq!(hamming_bytes(&[0x01], &[0x00, 0xFF, 0xFF]), 1);
    let a: &[u8] = &[1, 2, 3];
    let b: &[u8] = &[3, 2, 1];
    assert_eq!(Hamming::<&[u8]>::distance(&Hamming(a), &Hamming(b)), 2);
    assert_eq!(Hamming::<&[u8]>::distance(&Hamming(a), &Hamming(a)), 0);
    assert_eq!(Hamming::<Vec<u8>>::distance(&Hamming(vec![0xF0; 16]), &Hamming(vec![0x0F; 16])), 128);
    assert_eq!(Hamming::<Vec<u8>>::distance(&Hamming(vec![0xF0; 20]), &Hamming(vec![0x0F; 17])), 136);
    assert_eq!(Hamming::<Vec<u8>>::distance(&Hamming(vec![]), &Hamming(vec![9])), 0);
}

#[test]
fn wrappers_compare_and_copy() {
    let a = Hamming(5u8);
    let b = a;
    assert_eq!(a, b);
    assert!(Hamming(1u8) < Hamming(2u8));
    assert_eq!(format!("{:?}", a), "Hamming(5)");
    let e = Euclidean(3u8);
    let f = e;
    assert_eq!(e, f);
    assert_eq!(format!("{:?}", e.clone()), "Euclidean(3)");
}
