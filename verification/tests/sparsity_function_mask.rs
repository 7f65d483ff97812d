use booleanlab_discovery::function::BooleanFunction;
use booleanlab_discovery::sparsity_function_mask::{
    DynamicMaskError, materialize_boolean_function_mask, row_address,
};

#[test]
fn materializes_xor_under_declared_truth_table_row_order() {
    let function = BooleanFunction::new(2, vec![0, 1, 1, 0]).unwrap();
    let rows: [&[bool]; 4] = [&[false, false], &[true, false], &[false, true], &[true, true]];

    let mask = materialize_boolean_function_mask(&function, &rows).unwrap();
    assert_eq!(mask.as_slice(), &[false, true, true, false]);
    assert_eq!(mask.cardinality().retained(), 2);
    assert_eq!(mask.cardinality().total(), 4);
}

#[test]
fn materialization_is_independent_of_search_method_metadata() {
    let function = BooleanFunction::new(2, vec![0, 1, 1, 0]).unwrap();
    let first_rows: [&[bool]; 3] = [&[true, false], &[false, true], &[true, true]];
    let second_rows: [&[bool]; 3] = [&[true, false], &[false, true], &[true, true]];

    let first = materialize_boolean_function_mask(&function, &first_rows).unwrap();
    let second = materialize_boolean_function_mask(&function, &second_rows).unwrap();
    assert_eq!(first, second);
}

#[test]
fn propagates_predicate_arity_failure() {
    let function = BooleanFunction::new(2, vec![0, 1, 1, 0]).unwrap();
    let one = [true];
    let rows: [&[bool]; 1] = [&one];

    assert_eq!(
        materialize_boolean_function_mask(&function, &rows),
        Err(DynamicMaskError::PredicateArityMismatch { index: 0, expected: 2, actual: 1 })
    );
}

#[test]
fn empty_rows_are_refused_and_addresses_pack_p0_lowest() {
    let function = BooleanFunction::new(2, vec![0, 1, 1, 0]).unwrap();
    let rows: [&[bool]; 0] = [];
    assert_eq!(
        materialize_boolean_function_mask(&function, &rows),
        Err(DynamicMaskError::EmptyPredicateRows)
    );
    assert_eq!(row_address(&[true, false, true]), 0b101);
    assert_eq!(row_address(&[false, true]), 0b10);
}
