use booleanlab_discovery::tropical::{TropicalComparison, TropicalError, TropicalMonomial};
use booleanlab_discovery::tropical_search::{
    BL13_4_1_MAX_REPORTED_WITNESSES, EvaluatedPolynomial, ROWS, bl13_4_1_bounded_search,
    frozen_polynomials, frozen_terms, table_for_pair,
};

#[test]
fn frozen_grammar_has_preregistered_syntactic_cardinality() {
    let terms = frozen_terms();
    assert_eq!(terms.len(), 33);
    let polynomials = frozen_polynomials(&terms).unwrap();
    assert_eq!(polynomials.len(), 528);
    let expected_predicates = polynomials.len() * (polynomials.len() - 1);
    assert_eq!(expected_predicates, 278_256);
}

#[test]
fn bounded_search_is_exact_and_witnesses_obey_the_frozen_gate() {
    let report = bl13_4_1_bounded_search().unwrap();
    assert_eq!(report.summary.syntactic_terms, 33);
    assert_eq!(report.summary.polynomials, 528);
    assert_eq!(report.summary.predicates_evaluated, 278_256);
    assert_eq!(
        report.summary.unique_truth_tables + report.summary.duplicate_predicates,
        report.summary.predicates_evaluated
    );
    assert_eq!(
        report.summary.constant_functions + report.summary.nonconstant_functions,
        report.summary.unique_truth_tables
    );
    assert!(report.witnesses.len() <= BL13_4_1_MAX_REPORTED_WITNESSES);
    for witness in &report.witnesses {
        assert!(witness.metrics.balanced);
        assert!(witness.metrics.nonlinearity >= 4);
        assert_eq!(witness.truth_table.len(), ROWS);
        assert_eq!(witness.anf_coefficients.len(), ROWS);
        assert_eq!(witness.walsh_spectrum.len(), ROWS);
    }
}

#[test]
fn frozen_terms_start_with_the_negative_constant_over_small_masks() {
    let terms = frozen_terms();
    let masks: Vec<u64> = terms.iter().take(11).map(|t| t.variables).collect();
    assert_eq!(masks, vec![0, 1, 2, 3, 4, 5, 6, 8, 9, 10, 12]);
    assert!(terms.iter().take(11).all(|t| t.constant == -1));
    assert_eq!(terms[11], TropicalMonomial { constant: 0, variables: 0 });
    assert_eq!(terms[32], TropicalMonomial { constant: 1, variables: 12 });
}

#[test]
fn first_polynomial_is_the_max_of_the_first_two_terms() {
    let terms = frozen_terms();
    let polynomials = frozen_polynomials(&terms).unwrap();
    // max(-1, -1 + x0) is 0 exactly on odd rows.
    let expected: Vec<i64> = (0..16).map(|x| if x & 1 == 1 { 0 } else { -1 }).collect();
    assert_eq!(polynomials[0].values, expected);
}

#[test]
fn failing_term_reports_the_first_failing_pair() {
    let good = TropicalMonomial { constant: 0, variables: 1 };
    let wide = TropicalMonomial { constant: 0, variables: 16 };
    let huge = TropicalMonomial { constant: i64::MAX, variables: 1 };
    assert_eq!(
        frozen_polynomials(&[good, good, wide]).unwrap_err(),
        TropicalError::VariableOutOfRange { variables: 16, input_bits: 4 }
    );
    assert_eq!(
        frozen_polynomials(&[good, huge]).unwrap_err(),
        TropicalError::ArithmeticOverflow
    );
    assert_eq!(frozen_polynomials(&[wide]).unwrap().len(), 0);
}

#[test]
fn pair_table_compares_row_by_row() {
    let left = EvaluatedPolynomial { values: vec![0, 1, 2, 3] };
    let right = EvaluatedPolynomial { values: vec![1, 1, 1, 1] };
    assert_eq!(table_for_pair(&left, &right, TropicalComparison::Greater), vec![0, 0, 1, 1]);
    assert_eq!(table_for_pair(&left, &right, TropicalComparison::GreaterOrEqual), vec![0, 1, 1, 1]);
}

#[test]
fn reported_witnesses_follow_the_report_order() {
    let report = bl13_4_1_bounded_search().unwrap();
    assert_eq!(
        report.summary.h1_witness_count.min(BL13_4_1_MAX_REPORTED_WITNESSES),
        report.witnesses.len()
    );
    for pair in report.witnesses.windows(2) {
        let (a, b) = (&pair[0], &pair[1]);
        let key_a = (a.metrics.nonlinearity, a.metrics.correlation_immunity, a.metrics.algebraic_degree);
        let key_b = (b.metrics.nonlinearity, b.metrics.correlation_immunity, b.metrics.algebraic_degree);
        assert!(key_a > key_b || (key_a == key_b && a.truth_table < b.truth_table));
    }
}
