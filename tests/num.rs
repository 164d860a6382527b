use mdsecheck::num::{prime_divisors, reversed_bits};

#[test]
fn test_prime_divisors() {
    assert_eq!(prime_divisors(0), Vec::<u32>::new());
    assert_eq!(prime_divisors(1), Vec::<u32>::new());
    assert_eq!(prime_divisors(2), vec![2]);
    assert_eq!(prime_divisors(3), vec![3]);
    assert_eq!(prime_divisors(5), vec![5]);
    assert_eq!(prime_divisors(512), vec![2]);
    assert_eq!(prime_divisors(729), vec![3]);
    assert_eq!(prime_divisors(625), vec![5]);
    assert_eq!(prime_divisors(121), vec![11]);
    assert_eq!(prime_divisors(257), vec![257]);
    assert_eq!(prime_divisors(323), vec![17, 19]);
    assert_eq!(prime_divisors(7500), vec![2, 3, 5]);
    assert_eq!(prime_divisors(26620), vec![2, 5, 11]);
    assert_eq!(prime_divisors(5898330), vec![2, 3, 5, 65537]);
}

#[test]
fn prime_divisors_of_large_values() {
    assert_eq!(prime_divisors(u32::MAX), vec![3, 5, 17, 257, 65537]);
    assert_eq!(prime_divisors(4294967291), vec![4294967291]);
    assert_eq!(prime_divisors(65521 * 65521), vec![65521]);
    assert_eq!(prime_divisors(49), vec![7]);
    assert_eq!(prime_divisors(35), vec![5, 7]);
}

#[test]
fn test_reversed_bits() {
    assert_eq!(reversed_bits(&[]).into_iter().next(), None);
    assert_eq!(reversed_bits(&[0]).into_iter().next(), None);
    assert_eq!(reversed_bits(&[0, 0]).into_iter().next(), None);
    assert_eq!(
        reversed_bits(&[0xA, u64::MAX]),
        [&[true; 64][..], &[false; 60], &[true, false, true, false]].concat()
    );
    assert_eq!(
        reversed_bits(&[0xB, 1 << 63, 0]),
        [
            &[true][..],
            &[false; 63],
            &[false; 60],
            &[true, false, true, true]
        ]
        .concat()
    );
    assert_eq!(
        reversed_bits(&[0xC, 0xD]),
        [
            &[true, true, false, true][..],
            &[false; 60],
            &[true, true, false, false]
        ]
        .concat()
    );
    assert_eq!(
        reversed_bits(&[0xE, 0xF, 0, 0]),
        [&[true; 4][..], &[false; 60], &[true; 3], &[false]].concat()
    );
}

#[test]
fn reversed_bits_of_small_words() {
    assert_eq!(reversed_bits(&[1]), vec![true]);
    assert_eq!(reversed_bits(&[6]), vec![true, true, false]);
    assert_eq!(reversed_bits(&[0, 0, 0, 0, 0]), Vec::<bool>::new());
}
