use booleanlab_discovery::function::{BooleanFunction, DedupIndex, DedupOutcome, FunctionError};
use booleanlab_discovery::spectral::MAX_EXACT_BITS;

#[test]
fn rejects_malformed_truth_tables() {
    assert_eq!(
        BooleanFunction::new(0, vec![0]),
        Err(FunctionError::ZeroInputs)
    );
    assert!(matches!(
        BooleanFunction::new(MAX_EXACT_BITS + 1, vec![]),
        Err(FunctionError::InputWidthTooLarge { .. })
    ));
    assert!(matches!(
        BooleanFunction::new(2, vec![0, 1]),
        Err(FunctionError::TruthTableLength { .. })
    ));
    assert_eq!(
        BooleanFunction::new(1, vec![0, 2]),
        Err(FunctionError::NonBooleanValue { index: 1, value: 2 })
    );
}

#[test]
fn measures_two_bit_and_exactly() {
    let function = BooleanFunction::new(2, vec![0, 0, 0, 1]).unwrap();
    let metrics = function.exact_metrics();
    assert_eq!(metrics.algebraic_degree, 2);
    assert_eq!(metrics.nonlinearity, 1);
    assert!(!metrics.balanced);
    assert!(metrics.bent);
    assert_eq!(metrics.correlation_immunity, 0);
}

#[test]
fn complement_canonicalisation_is_exact() {
    let function = BooleanFunction::new(2, vec![0, 0, 0, 1]).unwrap();
    let complement = BooleanFunction::new(2, vec![1, 1, 1, 0]).unwrap();
    assert_eq!(
        function.canonical_under_complement(),
        complement.canonical_under_complement()
    );
}

#[test]
fn deduplication_confirms_exact_equality() {
    let and = BooleanFunction::new(2, vec![0, 0, 0, 1]).unwrap();
    let or = BooleanFunction::new(2, vec![0, 1, 1, 1]).unwrap();
    let mut index = DedupIndex::new();
    assert_eq!(index.insert(and.clone()), DedupOutcome::New);
    assert_eq!(index.insert(and), DedupOutcome::Existing);
    assert_eq!(index.insert(or), DedupOutcome::New);
    assert_eq!(index.unique_functions(), 2);
}

#[test]
fn measures_three_bit_parity_exactly() {
    let table = (0..8u64).map(|x| u8::from(x.count_ones() % 2 == 1)).collect();
    let parity = BooleanFunction::new(3, table).unwrap();
    let metrics = parity.exact_metrics();
    assert_eq!(metrics.algebraic_degree, 1);
    assert_eq!(metrics.nonlinearity, 0);
    assert!(metrics.balanced);
    assert!(!metrics.bent);
    assert_eq!(metrics.correlation_immunity, 2);
}

#[test]
fn from_fn_evaluates_every_row() {
    let f = BooleanFunction::from_fn(3, |x| x % 3 == 0).expect("three inputs are in bounds");
    assert_eq!(f.input_bits(), 3);
    assert_eq!(f.truth_table(), &[1, 0, 0, 1, 0, 0, 1, 0]);
    assert_eq!(BooleanFunction::from_fn(0, |_| true), Err(FunctionError::ZeroInputs));
    assert_eq!(
        BooleanFunction::from_fn(MAX_EXACT_BITS + 1, |_| true),
        Err(FunctionError::InputWidthTooLarge { width: MAX_EXACT_BITS + 1, maximum: MAX_EXACT_BITS })
    );
}
