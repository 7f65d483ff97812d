use booleanlab_discovery::baseline::{
    BaselineConfig, dominates, run_boolean_baseline, scan_four_variable_reference_space,
};

#[test]
fn four_variable_scan_recovers_reference_classes() {
    let stats = scan_four_variable_reference_space();
    assert_eq!(stats.total_functions, 65_536);
    assert!(stats.balanced_functions > 0);
    assert!(stats.bent_functions > 0);
    assert!(stats.resilient_functions > 0);
    assert!(stats.three_valued_plateaued_functions > 0);
    assert_eq!(stats.best_nonlinearity, 6);
}

#[test]
fn bounded_search_is_deterministic() {
    let config = BaselineConfig {
        input_bits: 5,
        candidates: 64,
        min_gates: 2,
        max_gates: 8,
        seed: 7,
    };
    assert_eq!(
        run_boolean_baseline(config).unwrap(),
        run_boolean_baseline(config).unwrap()
    );
}

#[test]
fn pareto_front_is_pairwise_nondominated() {
    let summary = run_boolean_baseline(BaselineConfig {
        input_bits: 5,
        candidates: 128,
        min_gates: 2,
        max_gates: 10,
        seed: 11,
    })
    .unwrap();
    for (index, left) in summary.pareto_front.iter().enumerate() {
        for (other_index, right) in summary.pareto_front.iter().enumerate() {
            if index != other_index {
                assert!(!dominates(left, right));
            }
        }
    }
}
