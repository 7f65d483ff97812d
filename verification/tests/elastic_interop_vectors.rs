use booleanlab_discovery::elastic_interop_vectors::{
    ElasticInteropLogicalClassV1, ElasticInteropVectorError, elastic_interop_vectors_v1,
    evaluate_rpn, parse_u32, render_elastic_interop_vectors_v1,
};

#[test]
fn rows_cover_fast_shapes_general_shapes_and_sat_boundaries() {
    let rows = elastic_interop_vectors_v1().unwrap();
    assert!(rows.iter().any(|row| row.shape_class == "conjunction"));
    assert!(rows.iter().any(|row| row.shape_class == "disjunction"));
    assert!(rows.iter().any(|row| row.shape_class == "general"));
    assert!(rows.iter().any(|row| row.logical_class.tautology()));
    assert!(rows.iter().any(|row| row.logical_class.contradiction()));
    assert!(rows.iter().all(|row| !(row.logical_class.tautology() && row.logical_class.contradiction())));
    assert!(rows.iter().all(|row| row.logical_class.satisfiable() != row.logical_class.contradiction()));
}

#[test]
fn row_order_binds_p0_to_least_significant_assignment_bit() {
    let xor = elastic_interop_vectors_v1()
        .unwrap()
        .into_iter()
        .find(|row| row.case_id == "xor-two-inputs")
        .unwrap();
    assert_eq!(xor.truth_table, vec![0, 1, 1, 0, 0, 1, 1, 0]);
}

#[test]
fn bounded_rpn_parser_rejects_invalid_input() {
    assert_eq!(
        evaluate_rpn("p3", 3, 0),
        Err(ElasticInteropVectorError::PredicateOutOfRange { predicate: 3, input_bits: 3 })
    );
    assert!(matches!(evaluate_rpn("p0 and", 3, 0), Err(ElasticInteropVectorError::StackUnderflow { .. })));
    assert!(matches!(
        evaluate_rpn("p0 p1", 3, 0),
        Err(ElasticInteropVectorError::InvalidFinalStackDepth { depth: 2 })
    ));
    assert!(matches!(evaluate_rpn("wat", 3, 0), Err(ElasticInteropVectorError::UnknownToken(_))));
}

#[test]
fn rpn_operators_evaluate_exactly() {
    assert_eq!(evaluate_rpn("true false implies", 3, 0), Ok(false));
    assert_eq!(evaluate_rpn("false true implies", 3, 0), Ok(true));
    assert_eq!(evaluate_rpn("  p0\tp2 \n and ", 3, 0b101), Ok(true));
    assert_eq!(evaluate_rpn("p0 p2 and", 3, 0b001), Ok(false));
    assert_eq!(evaluate_rpn("p+1 not", 3, 0b010), Ok(false));
    assert_eq!(
        evaluate_rpn("not", 3, 0),
        Err(ElasticInteropVectorError::StackUnderflow { token: "not".to_string() })
    );
    assert_eq!(
        evaluate_rpn("p0 pq", 3, 0),
        Err(ElasticInteropVectorError::UnknownToken("pq".to_string()))
    );
    assert_eq!(evaluate_rpn("", 3, 0), Err(ElasticInteropVectorError::InvalidFinalStackDepth { depth: 0 }));
    let long = vec!["true"; 33].join(" ");
    assert_eq!(evaluate_rpn(&long, 3, 0), Err(ElasticInteropVectorError::TooManyTokens { maximum: 32 }));
}

#[test]
fn predicate_indices_parse_like_unsigned_integers() {
    assert_eq!(parse_u32("17"), Some(17));
    assert_eq!(parse_u32("+3"), Some(3));
    assert_eq!(parse_u32("4294967295"), Some(u32::MAX));
    assert_eq!(parse_u32("4294967296"), None);
    assert_eq!(parse_u32(""), None);
    assert_eq!(parse_u32("+"), None);
    assert_eq!(parse_u32("-1"), None);
    assert_eq!(parse_u32("1a"), None);
}

#[test]
fn logical_classes_answer_their_questions() {
    assert!(ElasticInteropLogicalClassV1::Contingent.satisfiable());
    assert!(!ElasticInteropLogicalClassV1::Contradiction.satisfiable());
    assert!(ElasticInteropLogicalClassV1::Tautology.tautology());
    assert!(!ElasticInteropLogicalClassV1::Contingent.contradiction());
}

#[test]
fn rendered_fixture_has_a_header_and_one_line_per_case() {
    let text = render_elastic_interop_vectors_v1().unwrap();
    let lines: Vec<&str> = text.lines().collect();
    assert_eq!(lines.len(), 8);
    assert!(lines[0].starts_with("schema_version\tcase_id\tshape_class"));
    let tautology: Vec<&str> = lines[5].split('\t').collect();
    assert_eq!(tautology.len(), 14);
    assert_eq!(&tautology[..6], &["1", "tautology", "tautology", "3", "p0 p0 not or", "11111111"]);
    assert_eq!(&tautology[10..13], &["true", "true", "false"]);
    assert_eq!(tautology[13].len(), 16);
    let rows = elastic_interop_vectors_v1().unwrap();
    assert_eq!(tautology[13], format!("{:016x}", rows[4].booleanlab_fingerprint));
    assert!(text.ends_with('\n'));
}

#[test]
fn rpn_predicates_beyond_the_assignment_fail_closed() {
    assert_eq!(evaluate_rpn("p0", 100, 1), Ok(true));
    assert_eq!(evaluate_rpn("p63", 100, 1 << 63), Ok(true));
    assert_eq!(
        evaluate_rpn("p64", 100, u64::MAX),
        Err(ElasticInteropVectorError::PredicateOutOfRange { predicate: 64, input_bits: 100 })
    );
}
