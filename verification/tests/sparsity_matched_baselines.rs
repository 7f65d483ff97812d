use booleanlab_discovery::sparsity_function_mask::MaskCardinality;
use booleanlab_discovery::sparsity_matched_baselines::{
    MATCHED_BASELINE_CONTRACT_VERSION, MatchedBaselineError, MatchedBaselineProtocol, plan_matched_baselines,
    require_score_width, validate_protocol,
};

fn protocol() -> MatchedBaselineProtocol {
    MatchedBaselineProtocol {
        protocol_id: "bl14.5-search-model-v1".to_owned(),
        boolean_candidate_provenance: "boolean-mask:sha256:candidate".to_owned(),
        magnitude_score_provenance: "weights:sha256:a".to_owned(),
        structured_score_provenance: "weights:sha256:a".to_owned(),
        random_seed_provenance: "preregistered-seeds-v1".to_owned(),
        structured_group_size: 4,
        random_seeds: vec![7, 11, 13],
    }
}

/// The cardinality of a mask of width 8 keeping units 0, 2, 5 and 7.
fn candidate() -> MaskCardinality {
    MaskCardinality { retained: 4, total: 8 }
}

#[test]
fn admitted_request_keeps_two_units_per_structured_group() {
    let scores = [9, 1, 8, 2, 7, 3, 6, 4];
    assert_eq!(MATCHED_BASELINE_CONTRACT_VERSION, "bl14.matched-baseline-set.v1");
    assert_eq!(plan_matched_baselines(candidate(), &scores, &scores, &protocol()), Ok(2));
}

#[test]
fn rejects_score_width_and_structured_density_drift() {
    let scores = [9, 1, 8, 2, 7, 3, 6, 4];
    assert_eq!(
        plan_matched_baselines(candidate(), &scores[..7], &scores, &protocol()),
        Err(MatchedBaselineError::ScoreWidthMismatch { baseline: "magnitude", expected: 8, actual: 7 })
    );

    let three_of_eight = MaskCardinality { retained: 3, total: 8 };
    assert_eq!(
        plan_matched_baselines(three_of_eight, &scores, &scores, &protocol()),
        Err(MatchedBaselineError::StructuredRetainedNotDivisibleAcrossGroups { retained: 3, groups: 2 })
    );
}

#[test]
fn structured_score_width_is_checked_after_magnitude() {
    let scores = [9, 1, 8, 2, 7, 3, 6, 4];
    assert_eq!(
        plan_matched_baselines(candidate(), &scores, &scores[..5], &protocol()),
        Err(MatchedBaselineError::ScoreWidthMismatch { baseline: "structured", expected: 8, actual: 5 })
    );
    assert_eq!(
        require_score_width("magnitude", 3, 4),
        Err(MatchedBaselineError::ScoreWidthMismatch { baseline: "magnitude", expected: 4, actual: 3 })
    );
    assert_eq!(require_score_width("magnitude", 4, 4), Ok(()));
}

#[test]
fn rejects_invalid_group_geometry_without_density_rounding() {
    let scores = [9, 1, 8, 2, 7, 3, 6, 4];

    let mut zero = protocol();
    zero.structured_group_size = 0;
    assert_eq!(
        plan_matched_baselines(candidate(), &scores, &scores, &zero),
        Err(MatchedBaselineError::ZeroStructuredGroupSize)
    );

    let mut truncated = protocol();
    truncated.structured_group_size = 3;
    assert_eq!(
        plan_matched_baselines(candidate(), &scores, &scores, &truncated),
        Err(MatchedBaselineError::StructuredGroupSizeDoesNotDivideTotal { total: 8, group_size: 3 })
    );
}

#[test]
fn rejects_empty_provenance_and_duplicate_or_missing_random_controls() {
    let scores = [9, 1, 8, 2, 7, 3, 6, 4];

    let mut missing = protocol();
    missing.magnitude_score_provenance = " ".to_owned();
    assert_eq!(
        plan_matched_baselines(candidate(), &scores, &scores, &missing),
        Err(MatchedBaselineError::EmptyProtocolField { field: "magnitude_score_provenance" })
    );

    let mut empty_random = protocol();
    empty_random.random_seeds.clear();
    assert_eq!(
        plan_matched_baselines(candidate(), &scores, &scores, &empty_random),
        Err(MatchedBaselineError::EmptyRandomSeeds)
    );

    let mut duplicate = protocol();
    duplicate.random_seeds = vec![7, 7];
    assert_eq!(
        plan_matched_baselines(candidate(), &scores, &scores, &duplicate),
        Err(MatchedBaselineError::DuplicateRandomSeed { seed: 7 })
    );
}

#[test]
fn first_repeated_seed_and_first_blank_field_are_reported() {
    let mut repeated = protocol();
    repeated.random_seeds = vec![3, 5, 9, 5, 3];
    assert_eq!(validate_protocol(&repeated), Err(MatchedBaselineError::DuplicateRandomSeed { seed: 5 }));

    let mut blank = protocol();
    blank.protocol_id = "\t\n".to_owned();
    blank.random_seed_provenance = String::new();
    assert_eq!(validate_protocol(&blank), Err(MatchedBaselineError::EmptyProtocolField { field: "protocol_id" }));

    let mut last = protocol();
    last.random_seed_provenance = String::new();
    assert_eq!(
        validate_protocol(&last),
        Err(MatchedBaselineError::EmptyProtocolField { field: "random_seed_provenance" })
    );
    assert_eq!(validate_protocol(&protocol()), Ok(()));
}

#[test]
fn all_drop_and_all_keep_candidates_remain_exactly_matchable() {
    let scores = [4, 3, 2, 1];
    let mut p = protocol();
    p.structured_group_size = 2;

    let dropped = plan_matched_baselines(MaskCardinality { retained: 0, total: 4 }, &scores, &scores, &p);
    assert_eq!(dropped, Ok(0));

    let kept = plan_matched_baselines(MaskCardinality { retained: 4, total: 4 }, &scores, &scores, &p);
    assert_eq!(kept, Ok(2));
}
