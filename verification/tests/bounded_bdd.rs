use booleanlab_discovery::bounded_bdd::{
    BddExperimentError, BddExperimentLimits, MAX_BDD_EXPERIMENT_INPUT_BITS, apply_pair_check,
    run_bounded_bdd_experiment,
};
use booleanlab_discovery::function::BooleanFunction;

fn function(bits: u32, f: impl Fn(u64) -> bool) -> BooleanFunction {
    BooleanFunction::from_fn(bits, f).expect("test function is inside exact bounds")
}

#[test]
fn bounded_backend_matches_exact_oracle_for_representative_functions() {
    let cases = [
        function(3, |x| (x & 1 != 0) ^ (x & 2 != 0)),
        function(3, |x| (x & 1 != 0) && (x & 2 == 0) && (x & 4 != 0)),
        function(3, |_| true),
        function(3, |_| false),
    ];
    for case in &cases {
        let report = run_bounded_bdd_experiment(case, BddExperimentLimits::default())
            .expect("small exact case fits the bounded experiment");
        assert_eq!(report.exhaustive_rows, 8);
        assert!(report.final_nodes <= report.result_node_limit);
    }
}

#[test]
fn result_node_limit_is_a_non_result() {
    let xor = function(3, |x| (x & 1 != 0) ^ (x & 2 != 0));
    assert_eq!(
        run_bounded_bdd_experiment(
            &xor,
            BddExperimentLimits { max_result_nodes: 1, max_apply_pairs: usize::MAX },
        ),
        Err(BddExperimentError::ResultNodeLimit { limit: 1 })
    );
}

#[test]
fn apply_pair_limit_is_checked_before_backend_dispatch() {
    let one_row = function(3, |x| x == 0);
    assert!(matches!(
        run_bounded_bdd_experiment(
            &one_row,
            BddExperimentLimits { max_result_nodes: 512, max_apply_pairs: 1 },
        ),
        Err(BddExperimentError::ApplyPairLimit { limit: 1, .. })
    ));
}

#[test]
fn width_and_zero_limits_fail_closed() {
    let too_wide = function(MAX_BDD_EXPERIMENT_INPUT_BITS + 1, |_| false);
    assert_eq!(
        run_bounded_bdd_experiment(&too_wide, BddExperimentLimits::default()),
        Err(BddExperimentError::InputWidthTooLarge {
            input_bits: MAX_BDD_EXPERIMENT_INPUT_BITS + 1,
            maximum: MAX_BDD_EXPERIMENT_INPUT_BITS,
        })
    );

    let small = function(2, |_| false);
    assert_eq!(
        run_bounded_bdd_experiment(&small, BddExperimentLimits { max_result_nodes: 0, max_apply_pairs: 1 }),
        Err(BddExperimentError::ZeroResourceLimit)
    );
}

#[test]
fn report_counts_rows_and_echoes_limits() {
    let majority = function(3, |x| x.count_ones() >= 2);
    let limits = BddExperimentLimits { max_result_nodes: 64, max_apply_pairs: 4096 };
    let report = run_bounded_bdd_experiment(&majority, limits).unwrap();
    assert_eq!(report.input_bits, 3);
    assert_eq!(report.exhaustive_rows, 8);
    assert_eq!(report.satisfying_rows, 4);
    assert_eq!(report.result_node_limit, 64);
    assert_eq!(report.apply_pair_limit, 4096);
    let empty = run_bounded_bdd_experiment(&function(3, |_| false), limits).unwrap();
    assert_eq!(empty.satisfying_rows, 0);
    assert_eq!(empty.final_nodes, 1);
}

#[test]
fn pair_estimate_saturates_and_compares_with_the_ceiling() {
    let limits = BddExperimentLimits { max_result_nodes: 8, max_apply_pairs: 6 };
    assert_eq!(apply_pair_check(2, 3, limits), Ok(6));
    assert_eq!(
        apply_pair_check(3, 3, limits),
        Err(BddExperimentError::ApplyPairLimit { estimated_pairs: 9, limit: 6 })
    );
    assert_eq!(
        apply_pair_check(usize::MAX, 2, limits),
        Err(BddExperimentError::ApplyPairLimit { estimated_pairs: usize::MAX, limit: 6 })
    );
    assert_eq!(BddExperimentLimits::default(), BddExperimentLimits { max_result_nodes: 512, max_apply_pairs: 65_536 });
}
