use booleanlab_discovery::baseline::{BaselineConfig, BaselineRecord, run_boolean_baseline};
use booleanlab_discovery::equivalence_screen::{
    AffineInvariantScreen, EquivalenceMatch, ScreenedEquivalence, affine_invariant_signature,
    screen_affine_invariants, screen_baseline_records, screen_candidate_set,
    screen_exact_or_complement, screen_full_baseline,
};
use booleanlab_discovery::function::BooleanFunction;

fn function(bits: &[u8]) -> BooleanFunction {
    BooleanFunction::new(2, bits.to_vec()).unwrap()
}

fn baseline_record(function: BooleanFunction, gate_count: usize) -> BaselineRecord {
    BaselineRecord {
        metrics: function.exact_metrics(),
        function,
        gate_count,
        depth: gate_count,
        imbalance: 0,
    }
}

#[test]
fn exact_match_has_precedence() {
    let candidate = function(&[0, 1, 1, 0]);
    let reference = vec![function(&[1, 0, 0, 1]), candidate.clone()];
    assert_eq!(
        screen_exact_or_complement(&candidate, &reference),
        Some(EquivalenceMatch {
            reference_index: 1,
            relation: ScreenedEquivalence::Exact,
        })
    );
}

#[test]
fn complement_match_is_reported_but_not_promoted_to_exact() {
    let candidate = function(&[0, 0, 1, 1]);
    let reference = vec![function(&[1, 1, 0, 0])];
    assert_eq!(
        screen_exact_or_complement(&candidate, &reference),
        Some(EquivalenceMatch {
            reference_index: 0,
            relation: ScreenedEquivalence::OutputComplement,
        })
    );
}

#[test]
fn baseline_record_screen_preserves_cost_lookup_index() {
    let candidate = function(&[0, 1, 1, 0]);
    let reference = vec![
        baseline_record(function(&[0, 0, 0, 1]), 3),
        baseline_record(candidate.clone(), 7),
    ];
    let matched = screen_baseline_records(&candidate, &reference).unwrap();

    assert_eq!(matched.reference_index, 1);
    assert_eq!(matched.relation, ScreenedEquivalence::Exact);
    assert_eq!(reference[matched.reference_index].gate_count, 7);
}

#[test]
fn baseline_record_screen_keeps_declared_relation_narrow() {
    let candidate = function(&[0, 0, 1, 1]);
    let reference = vec![baseline_record(function(&[1, 1, 0, 0]), 4)];

    assert_eq!(
        screen_baseline_records(&candidate, &reference),
        Some(EquivalenceMatch {
            reference_index: 0,
            relation: ScreenedEquivalence::OutputComplement,
        })
    );
}

#[test]
fn full_baseline_screen_uses_non_pareto_population_records() {
    let summary = run_boolean_baseline(BaselineConfig {
        input_bits: 2,
        candidates: 64,
        min_gates: 2,
        max_gates: 6,
        seed: 11,
    })
    .unwrap();
    let non_pareto = summary
        .population
        .iter()
        .enumerate()
        .find(|(_, record)| !summary.pareto_front.contains(record))
        .map(|(index, record)| (index, record.function.clone()))
        .expect("bounded fixture should retain at least one dominated function");

    assert_eq!(
        screen_full_baseline(&non_pareto.1, &summary),
        Some(EquivalenceMatch {
            reference_index: non_pareto.0,
            relation: ScreenedEquivalence::Exact,
        })
    );
}

#[test]
fn absence_is_not_fabricated_into_an_equivalence() {
    let candidate = function(&[0, 0, 0, 1]);
    let reference = vec![function(&[0, 1, 1, 0])];
    assert_eq!(screen_exact_or_complement(&candidate, &reference), None);
}

#[test]
fn differing_widths_are_not_compared() {
    let candidate = function(&[0, 0, 0, 1]);
    let wider = BooleanFunction::new(3, vec![0, 0, 0, 0, 0, 0, 0, 1]).unwrap();
    assert_eq!(screen_exact_or_complement(&candidate, &[wider]), None);
}

#[test]
fn candidate_set_preserves_input_order() {
    let exact = function(&[0, 1, 1, 0]);
    let absent = function(&[0, 0, 0, 1]);
    let reference = vec![exact.clone()];
    let screened = screen_candidate_set(&[absent, exact], &reference);
    assert_eq!(screened[0], None);
    assert_eq!(
        screened[1],
        Some(EquivalenceMatch {
            reference_index: 0,
            relation: ScreenedEquivalence::Exact,
        })
    );
}

#[test]
fn affine_signature_is_output_complement_invariant() {
    let original = function(&[0, 0, 0, 1]);
    let complement = function(&[1, 1, 1, 0]);
    assert_eq!(
        affine_invariant_signature(&original),
        affine_invariant_signature(&complement)
    );
}

#[test]
fn differing_affine_invariants_exclude_equivalence() {
    let affine = function(&[0, 1, 1, 0]);
    let nonlinear = function(&[0, 0, 0, 1]);
    assert_eq!(
        screen_affine_invariants(&nonlinear, &[affine]),
        AffineInvariantScreen::Excluded
    );
}

#[test]
fn compatible_affine_invariants_remain_inconclusive() {
    let x0 = function(&[0, 1, 0, 1]);
    let x1 = function(&[0, 0, 1, 1]);
    assert_eq!(
        screen_affine_invariants(&x0, &[x1]),
        AffineInvariantScreen::Inconclusive {
            compatible_reference_indices: vec![0],
        }
    );
}

#[test]
fn affine_signature_survives_input_permutation() {
    let table = |f: &dyn Fn(u64) -> bool| -> Vec<u8> { (0..8u64).map(|x| u8::from(f(x))).collect() };
    let left = BooleanFunction::new(
        3,
        table(&|x| {
            let x0 = x & 1;
            let x1 = (x >> 1) & 1;
            let x2 = (x >> 2) & 1;
            (x0 & x1) ^ x2 == 1
        }),
    )
    .unwrap();
    let permuted = BooleanFunction::new(
        3,
        table(&|x| {
            let x0 = x & 1;
            let x1 = (x >> 1) & 1;
            let x2 = (x >> 2) & 1;
            (x2 & x0) ^ x1 == 1
        }),
    )
    .unwrap();

    assert_eq!(affine_invariant_signature(&left), affine_invariant_signature(&permuted));
}

#[test]
fn affine_signature_survives_input_translation_and_complement() {
    // f(x) = x0 x1 + x2 x3 over four inputs, and g(x) = f(x XOR 0b0101) XOR 1.
    let f = |x: u64| ((x & 1) & ((x >> 1) & 1)) ^ (((x >> 2) & 1) & ((x >> 3) & 1));
    let left = BooleanFunction::new(4, (0..16u64).map(|x| f(x) as u8).collect()).unwrap();
    let shifted = BooleanFunction::new(4, (0..16u64).map(|x| (f(x ^ 0b0101) ^ 1) as u8).collect()).unwrap();
    assert_ne!(left.truth_table(), shifted.truth_table());
    assert_eq!(affine_invariant_signature(&left), affine_invariant_signature(&shifted));
    assert_eq!(
        screen_affine_invariants(&shifted, &[left]),
        AffineInvariantScreen::Inconclusive { compatible_reference_indices: vec![0] }
    );
}

#[test]
fn affine_signature_survives_invertible_linear_input_change() {
    // f(x) = x0 x1 x2 + x1 over three inputs, and g(x) = f(Ax) with
    // A: x0 <- x0 XOR x1, then x2 <- x2 XOR x0.
    let f = |x: u64| (x & (x >> 1) & (x >> 2) & 1) ^ ((x >> 1) & 1);
    let a = |x: u64| {
        let y = x ^ ((x >> 1) & 1);
        y ^ ((y & 1) << 2)
    };
    let left = BooleanFunction::new(3, (0..8u64).map(|x| f(x) as u8).collect()).unwrap();
    let changed = BooleanFunction::new(3, (0..8u64).map(|x| f(a(x)) as u8).collect()).unwrap();
    assert_ne!(left.truth_table(), changed.truth_table());
    assert_eq!(affine_invariant_signature(&left), affine_invariant_signature(&changed));
}
