use booleanlab_discovery::function::BooleanFunction;
use booleanlab_discovery::input_permutation_screen::{
    MAX_EXHAUSTIVE_PERMUTATION_BITS, PermutationEquivalenceMatch, PermutationScreenError,
    PermutationScreenedEquivalence, matches_under_permutation, remap_row,
    screen_with_input_permutations,
};
use booleanlab_discovery::permutation::next_permutation;

fn function(bits: &[u8]) -> BooleanFunction {
    BooleanFunction::new(2, bits.to_vec()).unwrap()
}

#[test]
fn exact_match_keeps_precedence() {
    let candidate = function(&[0, 1, 0, 1]);
    let reference = vec![candidate.clone()];
    assert_eq!(
        screen_with_input_permutations(&candidate, &reference).unwrap(),
        Some(PermutationEquivalenceMatch {
            reference_index: 0,
            relation: PermutationScreenedEquivalence::Exact,
        })
    );
}

#[test]
fn finds_input_variable_swap() {
    let x1 = function(&[0, 0, 1, 1]);
    let x0 = function(&[0, 1, 0, 1]);
    assert_eq!(
        screen_with_input_permutations(&x1, &[x0]).unwrap(),
        Some(PermutationEquivalenceMatch {
            reference_index: 0,
            relation: PermutationScreenedEquivalence::InputPermutation {
                permutation: vec![1, 0],
            },
        })
    );
}

#[test]
fn finds_input_swap_with_output_complement() {
    let not_x1 = function(&[1, 1, 0, 0]);
    let x0 = function(&[0, 1, 0, 1]);
    assert_eq!(
        screen_with_input_permutations(&not_x1, &[x0]).unwrap(),
        Some(PermutationEquivalenceMatch {
            reference_index: 0,
            relation: PermutationScreenedEquivalence::InputPermutationWithOutputComplement {
                permutation: vec![1, 0],
            },
        })
    );
}

#[test]
fn absence_remains_bounded_none() {
    let and = function(&[0, 0, 0, 1]);
    let x0 = function(&[0, 1, 0, 1]);
    assert_eq!(screen_with_input_permutations(&and, &[x0]).unwrap(), None);
}

#[test]
fn refuses_factorial_work_above_declared_bound() {
    let width = MAX_EXHAUSTIVE_PERMUTATION_BITS + 1;
    let candidate = BooleanFunction::new(width, vec![0; 1usize << width]).unwrap();
    assert_eq!(
        screen_with_input_permutations(&candidate, &[]),
        Err(PermutationScreenError::InputWidthTooLarge {
            width,
            maximum: MAX_EXHAUSTIVE_PERMUTATION_BITS,
        })
    );
}

#[test]
fn permutation_enumeration_excludes_identity() {
    let mut permutation = vec![0, 1, 2];
    let mut seen = Vec::new();
    while next_permutation(&mut permutation) {
        seen.push(permutation.clone());
    }
    assert_eq!(seen.len(), 5);
    assert!(!seen.contains(&vec![0, 1, 2]));
    assert!(seen.contains(&vec![2, 1, 0]));
}

#[test]
fn next_permutation_walks_lexicographic_order() {
    let mut permutation = vec![0, 1, 2];
    assert!(next_permutation(&mut permutation));
    assert_eq!(permutation, vec![0, 2, 1]);
    assert!(next_permutation(&mut permutation));
    assert_eq!(permutation, vec![1, 0, 2]);
    let mut last = vec![2, 1, 0];
    assert!(!next_permutation(&mut last));
    assert_eq!(last, vec![2, 1, 0]);
    let mut empty: Vec<u32> = Vec::new();
    assert!(!next_permutation(&mut empty));
}

#[test]
fn remap_row_moves_bits_to_their_targets() {
    assert_eq!(remap_row(0b01, &[1, 0]), 0b10);
    assert_eq!(remap_row(0b10, &[1, 0]), 0b01);
    assert_eq!(remap_row(0b011, &[2, 0, 1]), 0b101);
    assert_eq!(remap_row(0b11, &[0, 1]), 0b11);
}

#[test]
fn permutation_match_checks_every_row() {
    let x1 = function(&[0, 0, 1, 1]);
    let x0 = function(&[0, 1, 0, 1]);
    assert!(matches_under_permutation(&x1, &x0, &[1, 0], false));
    assert!(!matches_under_permutation(&x1, &x0, &[0, 1], false));
    assert!(!matches_under_permutation(&x1, &x0, &[1, 0], true));
}

#[test]
fn other_widths_are_skipped() {
    let x0 = function(&[0, 1, 0, 1]);
    let wide = BooleanFunction::new(3, vec![0, 1, 0, 1, 0, 1, 0, 1]).unwrap();
    let x1 = function(&[0, 0, 1, 1]);
    assert_eq!(
        screen_with_input_permutations(&x1, &[wide, x0]).unwrap(),
        Some(PermutationEquivalenceMatch {
            reference_index: 1,
            relation: PermutationScreenedEquivalence::InputPermutation {
                permutation: vec![1, 0],
            },
        })
    );
}

#[test]
fn remapped_row_moves_input_t_to_position_p_t() {
    let permutation = [2u32, 0, 1];
    assert_eq!(remap_row(0b001, &permutation), 0b100);
    assert_eq!(remap_row(0b010, &permutation), 0b001);
    assert_eq!(remap_row(0b100, &permutation), 0b010);
    for row in 0..8usize {
        let remapped = remap_row(row, &permutation);
        for t in 0..3usize {
            assert_eq!((remapped >> permutation[t]) & 1, (row >> t) & 1);
        }
    }
}
