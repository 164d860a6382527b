use mdsecheck::field::Fe;
use mdsecheck::mat;
use mdsecheck::{random_cauchy, security_level};
use rand_chacha::rand_core::SeedableRng;
use rand_chacha::ChaCha8Rng;

#[test]
fn test_random_cauchy() {
    let mut r = ChaCha8Rng::seed_from_u64(123);
    let b = [
        Fe::from_u64(1),
        Fe::from_u64(2),
        Fe::from_u64(3),
        Fe::from_u64(4),
    ];
    for (_, n) in (0..100).zip((1..=b.len()).cycle()) {
        let m = random_cauchy(n as u32, &mut r).unwrap();
        // Checking the generated matrix for nonsingularity
        mat::system_solution(&m, &b[..n]).unwrap();
    }
}

#[test]
fn test_security_level() {
    let mut r = ChaCha8Rng::seed_from_u64(456);
    for (i, n) in (0..12).zip((2..=7).cycle()) {
        let m = random_cauchy(n, &mut r).unwrap();
        let s = security_level(&m, 25);
        match i {
            // The expected output was computed independently with the exact
            // characteristic polynomial and irreducibility test over the same field
            0 | 7 | 9 => assert_eq!(s, Some(25)),
            _ => assert_eq!(s, None),
        }
    }
}

#[test]
fn random_cauchy_rejects_order_zero() {
    let mut r = ChaCha8Rng::seed_from_u64(1);
    assert!(random_cauchy(0, &mut r).is_none());
}

#[test]
fn random_cauchy_has_requested_shape() {
    let mut r = ChaCha8Rng::seed_from_u64(7);
    let m = random_cauchy(5, &mut r).unwrap();
    assert_eq!(m.len(), 5);
    assert!(m.iter().all(|row| row.len() == 5));
    let b = vec![Fe::from_u64(9); 5];
    assert!(mat::system_solution(&m, &b).is_some());
}

#[test]
fn cauchy_entries_are_inverses_of_differences() {
    let c = [Fe::from_u64(5), Fe::from_u64(7)];
    let k = [Fe::from_u64(1), Fe::from_u64(2)];
    let m = mdsecheck::cauchy(&c, &k);
    // 1 / (5 - 1) = 1 / 4, so 4 * m[0][0] == 1
    let p = mat::product_vector(&[vec![m[0][0]]], &[Fe::from_u64(4)]);
    assert_eq!(p, Some(vec![Fe::one()]));
    let p = mat::product_vector(&[vec![m[1][1]]], &[Fe::from_u64(5)]);
    assert_eq!(p, Some(vec![Fe::one()]));
}

#[test]
fn security_level_rejects_small_inputs() {
    let one = vec![vec![Fe::from_u64(1)]];
    assert_eq!(security_level(&one, 25), None);
    let mut r = ChaCha8Rng::seed_from_u64(456);
    let m = random_cauchy(2, &mut r).unwrap();
    assert_eq!(security_level(&m, 0), None);
}

#[test]
fn random_cauchy_of_order_zero_draws_nothing() {
    let mut r = ChaCha8Rng::seed_from_u64(9);
    let untouched = ChaCha8Rng::seed_from_u64(9);
    assert!(random_cauchy(0, &mut r).is_none());
    assert!(r == untouched);
}

#[test]
fn security_level_rejects_ragged_matrix() {
    let a = vec![
        vec![Fe::from_u64(1), Fe::from_u64(2)],
        vec![Fe::from_u64(3)],
    ];
    assert_eq!(security_level(&a, 25), None);
}
