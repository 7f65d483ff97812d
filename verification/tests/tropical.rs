use booleanlab_discovery::function::{DedupIndex, DedupOutcome};
use booleanlab_discovery::tropical::{
    TropicalComparison, TropicalError, TropicalMonomial, TropicalPolynomial, TropicalPredicate,
    bl13_4_control_predicates, MAX_TROPICAL_CONTROL_BITS,
};

#[test]
fn hand_computable_two_bit_polynomial_is_exact() {
    let polynomial = TropicalPolynomial::new(
        2,
        vec![
            TropicalMonomial { constant: 0, variables: 0b01 },
            TropicalMonomial { constant: -1, variables: 0b11 },
        ],
    )
    .unwrap();
    assert_eq!(
        (0..4).map(|input| polynomial.evaluate(input).unwrap()).collect::<Vec<_>>(),
        vec![0, 1, 0, 1]
    );
}

#[test]
fn control_family_is_deterministic_exact_and_nonconstant() {
    let first = bl13_4_control_predicates().unwrap();
    let second = bl13_4_control_predicates().unwrap();
    assert_eq!(first, second);
    assert_eq!(first.len(), 4);

    let functions = first
        .iter()
        .map(TropicalPredicate::boolean_function)
        .collect::<Result<Vec<_>, _>>()
        .unwrap();
    let mut index = DedupIndex::new();
    for function in functions {
        let ones = function.truth_table().iter().map(|&value| usize::from(value)).sum::<usize>();
        assert!(ones > 0 && ones < function.truth_table().len());
        assert_eq!(index.insert(function), DedupOutcome::New);
    }
    assert_eq!(index.unique_functions(), 4);
}

#[test]
fn malformed_bounds_fail_closed() {
    assert_eq!(
        TropicalPolynomial::new(0, vec![TropicalMonomial { constant: 0, variables: 0 }]),
        Err(TropicalError::ZeroInputBits)
    );
    assert_eq!(
        TropicalPolynomial::new(2, vec![TropicalMonomial { constant: 0, variables: 0b100 }]),
        Err(TropicalError::VariableOutOfRange { variables: 0b100, input_bits: 2 })
    );
    let polynomial =
        TropicalPolynomial::new(2, vec![TropicalMonomial { constant: i64::MAX, variables: 1 }])
            .unwrap();
    assert_eq!(polynomial.evaluate(1), Err(TropicalError::ArithmeticOverflow));
}

#[test]
fn remaining_construction_errors_are_reported() {
    assert_eq!(
        TropicalPolynomial::new(MAX_TROPICAL_CONTROL_BITS + 1, vec![TropicalMonomial { constant: 0, variables: 0 }]),
        Err(TropicalError::WidthTooLarge { width: 17, maximum: 16 })
    );
    assert_eq!(TropicalPolynomial::new(3, Vec::new()), Err(TropicalError::EmptyPolynomial));
    let polynomial =
        TropicalPolynomial::new(2, vec![TropicalMonomial { constant: 0, variables: 1 }]).unwrap();
    assert_eq!(
        polynomial.evaluate(4),
        Err(TropicalError::InputOutOfRange { input: 4, input_bits: 2 })
    );
    let narrow =
        TropicalPolynomial::new(1, vec![TropicalMonomial { constant: 0, variables: 1 }]).unwrap();
    assert_eq!(
        TropicalPredicate::new(polynomial, narrow, TropicalComparison::Greater),
        Err(TropicalError::WidthMismatch { left: 2, right: 1 })
    );
}

#[test]
fn predicate_boundary_distinguishes_strict_and_non_strict() {
    let x0 = || TropicalPolynomial::new(2, vec![TropicalMonomial { constant: 0, variables: 0b01 }]).unwrap();
    let x1 = || TropicalPolynomial::new(2, vec![TropicalMonomial { constant: 0, variables: 0b10 }]).unwrap();
    let strict = TropicalPredicate::new(x0(), x1(), TropicalComparison::Greater).unwrap();
    let loose = TropicalPredicate::new(x0(), x1(), TropicalComparison::GreaterOrEqual).unwrap();
    assert_eq!(strict.boolean_function().unwrap().truth_table(), &[0, 1, 0, 0]);
    assert_eq!(loose.boolean_function().unwrap().truth_table(), &[1, 1, 0, 1]);
    assert_eq!(strict.evaluate(1), Ok(true));
    assert_eq!(loose.evaluate(2), Ok(false));
    assert_eq!(strict.input_bits(), 2);
}

#[test]
fn overflowing_predicate_refuses_materialization() {
    let high =
        TropicalPolynomial::new(1, vec![TropicalMonomial { constant: i64::MAX, variables: 1 }])
            .unwrap();
    let low = TropicalPolynomial::new(1, vec![TropicalMonomial { constant: 0, variables: 0 }]).unwrap();
    let predicate = TropicalPredicate::new(high, low, TropicalComparison::Greater).unwrap();
    assert_eq!(predicate.evaluate(0), Ok(true));
    assert_eq!(predicate.boolean_function(), Err(TropicalError::ArithmeticOverflow));
}
