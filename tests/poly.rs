use mdsecheck::field::Fe;
use mdsecheck::poly::{coprimality, new, power_modulo, reduced_modulo, Poly};

fn dense(c: &[Fe]) -> Poly {
    let mut v = c.to_vec();
    while v.last().map_or(false, |e| e.is_zero()) {
        v.pop();
    }
    Poly { coeffs: v }
}

#[test]
fn test_coprimality() {
    assert_eq!(coprimality(&new(&[0]), &new(&[0])), false);
    assert_eq!(coprimality(&new(&[2]), &new(&[0])), true);
    assert_eq!(coprimality(&new(&[0]), &new(&[4])), true);
    assert_eq!(coprimality(&new(&[2, 3]), &new(&[0])), false);
    assert_eq!(coprimality(&new(&[0]), &new(&[4, 5])), false);
    assert_eq!(coprimality(&new(&[3]), &new(&[3, 3])), true);
    assert_eq!(coprimality(&new(&[3, 3]), &new(&[3])), true);
    assert_eq!(coprimality(&new(&[4, 4]), &new(&[4, 4])), false);
    assert_eq!(coprimality(&new(&[1, 6, 9]), &new(&[1, 4, 4])), true);
    assert_eq!(coprimality(&new(&[1, 5, 6]), &new(&[1, 6, 9])), false);
}

#[test]
fn test_new() {
    assert_eq!(new(&[] as &[i64]), dense(&[Fe::from_u64(0)]));
    assert_eq!(new(&[0, 0, 0]), dense(&[Fe::from_u64(0)]));
    assert_eq!(
        new(&[1, 2, 3]),
        dense(&[Fe::from_u64(3), Fe::from_u64(2), Fe::from_u64(1)])
    );
    assert_eq!(
        new(&[0, -1, 2, -3]),
        dense(&[Fe::from_i64(-3), Fe::from_u64(2), Fe::from_i64(-1)])
    );
}

#[test]
fn test_power_modulo() {
    assert_eq!(power_modulo(&new(&[0]), &[0], &new(&[0])), None);
    assert_eq!(power_modulo(&new(&[0]), &[10], &new(&[0])), None);
    assert_eq!(power_modulo(&new(&[1, 0]), &[0], &new(&[0])), None);
    assert_eq!(power_modulo(&new(&[1, 0]), &[10], &new(&[0])), None);
    assert_eq!(power_modulo(&new(&[0]), &[0], &new(&[25])), Some(new(&[0])));
    assert_eq!(power_modulo(&new(&[0]), &[10], &new(&[25])), Some(new(&[0])));
    assert_eq!(power_modulo(&new(&[1, 0]), &[0], &new(&[25])), Some(new(&[0])));
    assert_eq!(power_modulo(&new(&[1, 10]), &[10], &new(&[25])), Some(new(&[0])));
    assert_eq!(power_modulo(&new(&[0]), &[0], &new(&[1, -1])), Some(new(&[1])));
    assert_eq!(
        power_modulo(&new(&[0]), &[10], &new(&[1, 0, -1])),
        Some(new(&[0]))
    );
    assert_eq!(
        power_modulo(&new(&[1, 0]), &[0], &new(&[1, 0, 0, -3])),
        Some(new(&[1]))
    );
    assert_eq!(
        power_modulo(&new(&[1, 0]), &[101], &new(&[1, 0, 0, 0, -2])),
        Some(new(&[1 << 25, 0]))
    );
    assert_eq!(
        power_modulo(&new(&[1, 0]), &[25, 3], &new(&[1, 0, 0, 0, 0, -1])),
        Some(new(&[1, 0, 0, 0]))
    );
}

#[test]
fn test_reduced_modulo() {
    assert_eq!(reduced_modulo(&new(&[4, 5, 6, 7, 8]), &new(&[0])), None);
    assert_eq!(
        reduced_modulo(&new(&[9, 10, 11, 12, 13]), &new(&[14])),
        Some(new(&[0]))
    );
    assert_eq!(
        reduced_modulo(&new(&[15, 16]), &new(&[17, 18, 19, 20])),
        Some(new(&[15, 16]))
    );
    assert_eq!(
        reduced_modulo(&new(&[3, 18, 39, 30, 21]), &new(&[1, 6, 12, 8])),
        Some(new(&[3, 6, 21]))
    );
}

#[test]
fn power_modulo_matches_repeated_multiplication() {
    // (x + 2)^3 = x^3 + 6x^2 + 12x + 8, and modulo x^2 + 1 that is 11x + 2
    let p = new(&[1, 2]);
    let m = new(&[1, 0, 1]);
    assert_eq!(power_modulo(&p, &[3], &m), Some(new(&[11, 2])));
    assert_eq!(power_modulo(&p, &[1], &m), Some(new(&[1, 2])));
    // (x + 2)^2 = x^2 + 4x + 4 = 4x + 3 modulo x^2 + 1
    assert_eq!(power_modulo(&p, &[2], &m), Some(new(&[4, 3])));
}

#[test]
fn coprimality_of_constants_and_shared_factors() {
    assert!(coprimality(&new(&[7]), &new(&[1, 2, 3])));
    assert!(!coprimality(&new(&[1, 0, -1]), &new(&[1, -1])));
    assert!(coprimality(&new(&[1, 0, 1]), &new(&[1, -1])));
}
