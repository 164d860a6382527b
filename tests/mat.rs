use mdsecheck::field::Fe;
use mdsecheck::mat::{product_matrix, product_vector, system_solution};

#[test]
fn test_product_matrix() {
    assert_eq!(
        product_matrix(
            &[vec![Fe::from_u64(1), Fe::from_u64(1)], vec![Fe::from_u64(1), Fe::from_u64(0)]],
            &[] as &[Vec<Fe>]
        ),
        None
    );
    assert_eq!(
        product_matrix(
            &[] as &[Vec<Fe>],
            &[vec![Fe::from_u64(1), Fe::from_u64(0)], vec![Fe::from_u64(1), Fe::from_u64(0)]]
        ),
        None
    );
    assert_eq!(
        product_matrix(
            &[vec![Fe::from_u64(1), Fe::from_u64(1)], vec![Fe::from_u64(1), Fe::from_u64(0)]],
            &[vec![]]
        ),
        None
    );
    assert_eq!(
        product_matrix(
            &[vec![]],
            &[vec![Fe::from_u64(1), Fe::from_u64(0)], vec![Fe::from_u64(1), Fe::from_u64(0)]]
        ),
        None
    );
    assert_eq!(
        product_matrix(
            &[vec![Fe::from_u64(2), Fe::from_u64(3)], vec![Fe::from_u64(4)]],
            &[vec![Fe::from_u64(2), Fe::from_u64(3)], vec![Fe::from_u64(4), Fe::from_u64(5)]]
        ),
        None
    );
    assert_eq!(
        product_matrix(
            &[vec![Fe::from_u64(2), Fe::from_u64(3)], vec![Fe::from_u64(4), Fe::from_u64(5)]],
            &[vec![Fe::from_u64(2)], vec![Fe::from_u64(3), Fe::from_u64(4)]]
        ),
        None
    );
    assert_eq!(
        product_matrix(
            &[
                vec![Fe::from_u64(2), Fe::from_u64(3), Fe::from_u64(4)],
                vec![Fe::from_u64(5), Fe::from_u64(6), Fe::from_u64(7)]
            ],
            &[
                vec![Fe::from_u64(3), Fe::from_u64(4), Fe::from_u64(5)],
                vec![Fe::from_u64(6), Fe::from_u64(7), Fe::from_u64(8)]
            ]
        ),
        None
    );
    assert_eq!(
        product_matrix(
            &[
                vec![Fe::from_u64(1), Fe::from_u64(2), Fe::from_u64(3)],
                vec![Fe::from_u64(3), Fe::from_u64(1), Fe::from_u64(2)],
                vec![Fe::from_u64(2), Fe::from_u64(3), Fe::from_u64(1)]
            ],
            &[
                vec![Fe::from_u64(4), Fe::from_u64(5), Fe::from_u64(6)],
                vec![Fe::from_u64(6), Fe::from_u64(4), Fe::from_u64(5)],
                vec![Fe::from_u64(5), Fe::from_u64(6), Fe::from_u64(4)]
            ]
        ),
        Some(vec![
            vec![Fe::from_u64(31), Fe::from_u64(31), Fe::from_u64(28)],
            vec![Fe::from_u64(28), Fe::from_u64(31), Fe::from_u64(31)],
            vec![Fe::from_u64(31), Fe::from_u64(28), Fe::from_u64(31)]
        ])
    );
    assert_eq!(
        product_matrix(
            &[
                vec![Fe::from_u64(4), Fe::from_u64(5), Fe::from_u64(6)],
                vec![Fe::from_u64(5), Fe::from_u64(6), Fe::from_u64(7)]
            ],
            &[
                vec![Fe::from_u64(3), Fe::from_u64(4)],
                vec![Fe::from_u64(4), Fe::from_u64(5)],
                vec![Fe::from_u64(6), Fe::from_u64(7)]
            ]
        ),
        Some(vec![
            vec![Fe::from_u64(68), Fe::from_u64(83)],
            vec![Fe::from_u64(81), Fe::from_u64(99)]
        ])
    );
}

#[test]
fn test_product_vector() {
    assert_eq!(
        product_vector(&[] as &[Vec<Fe>], &[Fe::from_u64(1), Fe::from_u64(1), Fe::from_u64(0)]),
        None
    );
    assert_eq!(
        product_vector(&[vec![]], &[Fe::from_u64(0), Fe::from_u64(0), Fe::from_u64(1)]),
        None
    );
    assert_eq!(
        product_vector(
            &[vec![Fe::from_u64(1), Fe::from_u64(1)], vec![Fe::from_u64(1), Fe::from_u64(0)]],
            &[]
        ),
        None
    );
    assert_eq!(
        product_vector(
            &[vec![Fe::from_u64(2), Fe::from_u64(3)], vec![Fe::from_u64(4)]],
            &[Fe::from_u64(5), Fe::from_u64(6)]
        ),
        None
    );
    assert_eq!(
        product_vector(
            &[
                vec![Fe::from_u64(2), Fe::from_u64(3), Fe::from_u64(4)],
                vec![Fe::from_u64(5), Fe::from_u64(6), Fe::from_u64(7)]
            ],
            &[Fe::from_u64(8), Fe::from_u64(9)]
        ),
        None
    );
    assert_eq!(
        product_vector(
            &[
                vec![Fe::from_u64(1), Fe::from_u64(2), Fe::from_u64(3)],
                vec![Fe::from_u64(4), Fe::from_u64(5), Fe::from_u64(6)],
                vec![Fe::from_u64(7), Fe::from_u64(8), Fe::from_u64(9)]
            ],
            &[Fe::from_u64(3), Fe::from_u64(5), Fe::from_u64(7)]
        ),
        Some(vec![Fe::from_u64(34), Fe::from_u64(79), Fe::from_u64(124)])
    );
    assert_eq!(
        product_vector(
            &[
                vec![Fe::from_u64(1), Fe::from_u64(2), Fe::from_u64(1)],
                vec![Fe::from_u64(3), Fe::from_u64(1), Fe::from_u64(4)],
                vec![Fe::from_u64(1), Fe::from_u64(5), Fe::from_u64(1)],
                vec![Fe::from_u64(6), Fe::from_u64(1), Fe::from_u64(7)]
            ],
            &[Fe::from_u64(2), Fe::from_u64(3), Fe::from_u64(5)]
        ),
        Some(vec![Fe::from_u64(13), Fe::from_u64(29), Fe::from_u64(22), Fe::from_u64(50)])
    );
}

#[test]
fn test_system_solution() {
    assert_eq!(
        system_solution(&[] as &[Vec<Fe>], &[Fe::from_u64(1), Fe::from_u64(2), Fe::from_u64(3)]),
        None
    );
    assert_eq!(
        system_solution(&[vec![]], &[Fe::from_u64(3), Fe::from_u64(2), Fe::from_u64(1)]),
        None
    );
    assert_eq!(
        system_solution(
            &[vec![Fe::from_u64(2), Fe::from_u64(1)], vec![Fe::from_u64(1), Fe::from_u64(0)]],
            &[]
        ),
        None
    );
    assert_eq!(
        system_solution(
            &[vec![Fe::from_u64(3), Fe::from_u64(4)], vec![Fe::from_u64(5)]],
            &[Fe::from_u64(6), Fe::from_u64(7)]
        ),
        None
    );
    assert_eq!(
        system_solution(
            &[
                vec![Fe::from_u64(1), Fe::from_u64(2), Fe::from_u64(3)],
                vec![Fe::from_u64(4), Fe::from_u64(5), Fe::from_u64(6)]
            ],
            &[Fe::from_u64(7), Fe::from_u64(8)]
        ),
        None
    );
    assert_eq!(
        system_solution(
            &[
                vec![Fe::from_u64(1), Fe::from_u64(2)],
                vec![Fe::from_u64(2), Fe::from_u64(3)],
                vec![Fe::from_u64(3), Fe::from_u64(4)]
            ],
            &[Fe::from_u64(4), Fe::from_u64(5)]
        ),
        None
    );
    assert_eq!(
        system_solution(
            &[
                vec![Fe::from_u64(1), Fe::from_u64(2), Fe::from_u64(3)],
                vec![Fe::from_u64(4), Fe::from_u64(5), Fe::from_u64(6)],
                vec![Fe::from_u64(7), Fe::from_u64(8), Fe::from_u64(9)]
            ],
            &[Fe::from_u64(7), Fe::from_u64(8)]
        ),
        None
    );
    assert_eq!(
        system_solution(
            &[
                vec![Fe::from_u64(1), Fe::from_u64(2), Fe::from_u64(3)],
                vec![Fe::from_u64(4), Fe::from_u64(5), Fe::from_u64(6)],
                vec![Fe::from_u64(6), Fe::from_u64(9), Fe::from_u64(12)]
            ],
            &[Fe::from_u64(7), Fe::from_u64(8), Fe::from_u64(9)]
        ),
        None
    );
    assert_eq!(
        system_solution(
            &[
                vec![Fe::from_u64(1), Fe::from_u64(2), Fe::from_u64(4)],
                vec![Fe::from_u64(1), Fe::from_u64(3), Fe::from_u64(9)],
                vec![Fe::from_u64(1), Fe::from_u64(4), Fe::from_u64(16)]
            ],
            &[Fe::from_u64(17), Fe::from_u64(34), Fe::from_u64(57)]
        ),
        Some(vec![Fe::from_u64(1), Fe::from_u64(2), Fe::from_u64(3)])
    );
}

#[test]
fn system_solution_round_trip() {
    let a = vec![
        vec![Fe::from_u64(2), Fe::from_u64(7), Fe::from_u64(1)],
        vec![Fe::from_u64(0), Fe::from_u64(3), Fe::from_u64(5)],
        vec![Fe::from_u64(4), Fe::from_u64(1), Fe::from_u64(9)],
    ];
    let x = vec![Fe::from_u64(11), Fe::from_i64(-6), Fe::from_u64(123456789)];
    let b = product_vector(&a, &x).unwrap();
    assert_eq!(system_solution(&a, &b), Some(x));
}

#[test]
fn system_solution_needs_a_row_exchange() {
    let a = vec![
        vec![Fe::from_u64(0), Fe::from_u64(1)],
        vec![Fe::from_u64(1), Fe::from_u64(0)],
    ];
    let b = vec![Fe::from_u64(3), Fe::from_u64(4)];
    assert_eq!(
        system_solution(&a, &b),
        Some(vec![Fe::from_u64(4), Fe::from_u64(3)])
    );
}

#[test]
fn product_vector_reduces_modulo_the_field() {
    let a = vec![vec![Fe::from_i64(-1), Fe::from_u64(1)]];
    let v = vec![Fe::from_u64(5), Fe::from_u64(2)];
    assert_eq!(product_vector(&a, &v), Some(vec![Fe::from_i64(-3)]));
}

#[test]
fn product_matrix_rejects_empty_columns() {
    assert_eq!(product_matrix(&[vec![Fe::from_u64(1)]], &[vec![]]), None);
}

#[test]
fn system_solution_rejects_singular_consistent_system() {
    let a = vec![
        vec![Fe::from_u64(1), Fe::from_u64(2)],
        vec![Fe::from_u64(2), Fe::from_u64(4)],
    ];
    let b = vec![Fe::from_u64(0), Fe::from_u64(0)];
    assert_eq!(system_solution(&a, &b), None);
}
