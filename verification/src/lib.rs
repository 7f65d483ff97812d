//! Exact Boolean-function representation, analysis and screening primitives.

pub mod bitwise;
pub mod spectral;
pub mod function;
pub mod circuit;
pub mod baseline;
pub mod equivalence_screen;
pub mod input_permutation_screen;
pub mod affine_invariance;
pub mod text;
pub mod text_order;
pub mod sorting;
pub mod permutation;
pub mod sparsity_rule_search;
pub mod sparsity_freeze;
pub mod sparsity_rule_evidence;
pub mod sparsity_semantic_freeze;
pub mod sparsity_holdout_report;
pub mod sparsity_exhaustive_search;
pub mod sparsity_function_mask;
pub mod sparsity_exhaustive_fit;
pub mod sparsity_cegis_search;
pub mod search_comparison;
pub mod tropical;
pub mod tropical_search;
pub mod elastic_interop_vectors;
pub mod bounded_bdd;
pub mod sparsity_matched_baselines;
pub mod sparsity_matched_observation;
pub mod gf2;
pub mod attention_frontier;
