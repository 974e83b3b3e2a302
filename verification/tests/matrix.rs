use curve25519_dalek::Scalar;
use rand::Rng;
use rlnc_poc::matrix::Eschelon;

#[test]
fn test_add_row() {
    let mut eschelon = Eschelon::new(3);
    assert_eq!(
        eschelon.add_row(vec![Scalar::from(0u32), Scalar::from(0u32), Scalar::from(0u32)]),
        false
    );
    assert_eq!(
        eschelon.add_row(vec![Scalar::from(0u32), Scalar::from(0u32), Scalar::from(1u32)]),
        true
    );
    assert_eq!(
        eschelon.add_row(vec![Scalar::from(0u32), Scalar::from(0u32), Scalar::from(1u32)]),
        false
    );
    assert_eq!(
        eschelon.add_row(vec![Scalar::from(0u32), Scalar::from(1u32), Scalar::from(0u32)]),
        true
    );
    assert_eq!(
        eschelon.add_row(vec![Scalar::from(0u32), Scalar::from(1u32), Scalar::from(0u32)]),
        false
    );
    assert_eq!(
        eschelon.add_row(vec![Scalar::from(1u32), Scalar::from(0u32), Scalar::from(0u32)]),
        true
    );
    assert_eq!(
        eschelon.add_row(vec![Scalar::from(1u32), Scalar::from(0u32), Scalar::from(0u32)]),
        false
    );
    assert_eq!(
        eschelon.add_row(vec![Scalar::from(1u32), Scalar::from(1u32), Scalar::from(1u32)]),
        false
    );
    assert_eq!(
        eschelon.add_row(vec![Scalar::from(0u32), Scalar::from(1u32), Scalar::from(1u32)]),
        false
    );
    eschelon = Eschelon::new(3);
    assert_eq!(
        eschelon.add_row(vec![Scalar::from(0u32), Scalar::from(1u32), Scalar::from(0u32)]),
        true
    );
    assert_eq!(
        eschelon.add_row(vec![Scalar::from(0u32), Scalar::from(2u32), Scalar::from(3u32)]),
        true
    );
    assert_eq!(
        eschelon.add_row(vec![Scalar::from(5u32), Scalar::from(0u32), Scalar::from(1u32)]),
        true
    );
    assert_eq!(
        eschelon.add_row(vec![Scalar::from(2u32), Scalar::from(0u32), Scalar::from(1u32)]),
        false
    );
    eschelon = Eschelon::new(3);
    assert_eq!(
        eschelon.add_row(vec![Scalar::from(2u32), Scalar::from(1u32), Scalar::from(0u32)]),
        true
    );
    assert_eq!(
        eschelon.add_row(vec![Scalar::from(3u32), Scalar::from(2u32), Scalar::from(1u32)]),
        true
    );
}

#[test]
fn test_inverse() {
    let mut eschelon = Eschelon::new(3);
    assert_eq!(eschelon.inverse().is_err(), true);
    eschelon.add_row(vec![Scalar::from(1u32), Scalar::from(0u32), Scalar::from(0u32)]);
    eschelon.add_row(vec![Scalar::from(0u32), Scalar::from(1u32), Scalar::from(0u32)]);
    eschelon.add_row(vec![Scalar::from(0u32), Scalar::from(0u32), Scalar::from(1u32)]);
    let inverse = eschelon.inverse().unwrap();
    assert_eq!(inverse[0][0], Scalar::from(1u32));
    assert_eq!(inverse[0][1], Scalar::from(0u32));

    eschelon = Eschelon::new(2);
    assert_eq!(eschelon.inverse().is_err(), true);
    eschelon.add_row(vec![Scalar::from(2u32), Scalar::from(5u32)]);
    eschelon.add_row(vec![Scalar::from(1u32), Scalar::from(3u32)]);
    let inverse = eschelon.inverse().unwrap();
    assert_eq!(inverse[0][0], Scalar::from(3u32));
    assert_eq!(inverse[0][1], -Scalar::from(5u32));
    assert_eq!(inverse[1][0], -Scalar::from(1u32));
    assert_eq!(inverse[1][1], Scalar::from(2u32));
}

#[test]
fn test_compound_scalars() {
    let eschelon = Eschelon::new(3);
    assert_eq!(
        eschelon.compound_scalars(&[1, 2, 3]),
        vec![Scalar::from(0u32), Scalar::from(0u32), Scalar::from(0u32)]
    );
    let mut eschelon = Eschelon::new(3);
    eschelon.add_row(vec![Scalar::from(2u32), Scalar::from(0u32), Scalar::from(0u32)]);
    eschelon.add_row(vec![Scalar::from(0u32), Scalar::from(3u32), Scalar::from(1u32)]);
    assert_eq!(
        eschelon.compound_scalars(&[3, 5]),
        vec![Scalar::from(6u32), Scalar::from(15u32), Scalar::from(5u32)]
    );
}

/// Multiplies `transform` by the coefficient rows padded to a square
/// system with unit rows, entry by entry over the scalar field.
fn witness_product(transform: &[Vec<Scalar>], coefficients: &[Vec<Scalar>], k: usize) -> Vec<Vec<Scalar>> {
    let mut padded: Vec<Vec<Scalar>> = coefficients.to_vec();
    for r in coefficients.len()..k {
        let mut unit_row = vec![Scalar::ZERO; k];
        unit_row[r] = Scalar::ONE;
        padded.push(unit_row);
    }
    let mut product = Vec::new();
    for i in 0..k {
        let mut row = Vec::new();
        for j in 0..k {
            let mut acc = Scalar::ZERO;
            for m in 0..k {
                acc += transform[i][m] * padded[m][j];
            }
            row.push(acc);
        }
        product.push(row);
    }
    product
}

#[test]
fn test_echelon_witness_invariant() {
    // Fifty random insertions on a size-10 system; after every call the
    // transform times the padded coefficient rows must equal the padded
    // reduced form.
    let k = 10;
    let mut eschelon = Eschelon::new(k);
    let mut rng = rand::thread_rng();
    for _ in 0..50 {
        let row: Vec<Scalar> = (0..k).map(|_| Scalar::from(rng.gen::<u64>() % 5)).collect();
        eschelon.add_row(row);
        let transform = eschelon.transform_rows();
        let coefficients = eschelon.coefficient_rows();
        let reduced = eschelon.reduced_rows();
        let product = witness_product(&transform, &coefficients, k);
        for i in 0..reduced.len() {
            assert_eq!(product[i], reduced[i], "witness broken at row {}", i);
        }
        for i in reduced.len()..k {
            let mut unit_row = vec![Scalar::ZERO; k];
            unit_row[i] = Scalar::ONE;
            assert_eq!(product[i], unit_row, "witness broken at padding row {}", i);
        }
    }
}

#[test]
fn test_inverse_underdetermined() {
    let mut eschelon = Eschelon::new(3);
    eschelon.add_row(vec![Scalar::from(1u32), Scalar::from(2u32), Scalar::from(3u32)]);
    assert!(eschelon.inverse().is_err());
    assert!(!eschelon.is_full());
}
