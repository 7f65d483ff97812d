use booleanlab_discovery::function::{DedupIndex, DedupOutcome};
use booleanlab_discovery::gf2::{Gf2GeneratorError, MAX_GF2_INVERSION_BITS, inversion_components_from_inverses};

/// Product of `a` and `b` modulo the polynomial `modulus` of degree `degree`.
fn field_mul(a: u64, b: u64, degree: u32, modulus: u64) -> u64 {
    let mut product = 0u64;
    let mut a = a;
    let mut b = b;
    while b != 0 {
        if b & 1 == 1 {
            product ^= a;
        }
        b >>= 1;
        a <<= 1;
        if a >> degree & 1 == 1 {
            a ^= modulus;
        }
    }
    product
}

/// The inverse of every element of `GF(2^degree)`, found by search.
fn inverses_by_search(degree: u32, modulus: u64) -> Vec<Option<u64>> {
    let order = 1u64 << degree;
    (0..order).map(|x| (1..order).find(|&y| field_mul(x, y, degree, modulus) == 1)).collect()
}

/// The inverse of every element of a field, as `x^(2^degree - 2)`.
fn inverses_by_power(degree: u32, modulus: u64) -> Vec<Option<u64>> {
    let order = 1u64 << degree;
    (0..order)
        .map(|x| {
            if x == 0 {
                return None;
            }
            let mut result = 1u64;
            let mut base = x;
            let mut exponent = order - 2;
            while exponent != 0 {
                if exponent & 1 == 1 {
                    result = field_mul(result, base, degree, modulus);
                }
                base = field_mul(base, base, degree, modulus);
                exponent >>= 1;
            }
            Some(result)
        })
        .collect()
}

#[test]
fn primitive8_inversion_components_have_expected_exact_metrics() {
    // GF(2^8) with the primitive modulus x^8 + x^4 + x^3 + x^2 + 1.
    let inverses = inverses_by_search(8, 0x11d);
    let functions = inversion_components_from_inverses(8, &inverses).unwrap();
    assert_eq!(functions.len(), 8);

    let mut index = DedupIndex::new();
    for function in functions {
        assert_eq!(function.input_bits(), 8);
        let metrics = function.exact_metrics();
        assert_eq!(metrics.algebraic_degree, 7);
        assert_eq!(metrics.nonlinearity, 112);
        assert!(metrics.balanced);
        assert!(!metrics.bent);
        assert_eq!(index.insert(function), DedupOutcome::New);
    }
    assert_eq!(index.unique_functions(), 8);
}

#[test]
fn reducible_modulus_is_rejected_when_an_element_is_not_invertible() {
    // x^4 + x^2 + 1 = (x^2 + x + 1)^2 does not define a field.
    let inverses = inverses_by_search(4, 0b1_0101);
    assert!(matches!(
        inversion_components_from_inverses(4, &inverses),
        Err(Gf2GeneratorError::NonInvertibleElement { .. })
    ));
}

#[test]
fn generator_enforces_resource_bound() {
    // GF(2^16) with the modulus x^16 + x^12 + x^3 + x + 1.
    let inverses = inverses_by_power(16, 0x1_100b);
    assert_eq!(inversion_components_from_inverses(16, &inverses).unwrap().len(), 16);
    assert_eq!(
        inversion_components_from_inverses(17, &[]),
        Err(Gf2GeneratorError::WidthTooLarge { width: 17, maximum: MAX_GF2_INVERSION_BITS })
    );
}

#[test]
fn gf4_inversion_components_are_the_bits_of_the_inverse() {
    // GF(4) with modulus x^2 + x + 1: 1 -> 1, x -> x + 1, x + 1 -> x.
    let inverses = [None, Some(1), Some(3), Some(2)];
    let functions = inversion_components_from_inverses(2, &inverses).unwrap();
    assert_eq!(functions.len(), 2);
    assert_eq!(functions[0].truth_table(), &[0, 1, 1, 0]);
    assert_eq!(functions[1].truth_table(), &[0, 0, 1, 1]);
    assert!(functions.iter().all(|f| f.input_bits() == 2));
}

#[test]
fn first_non_invertible_element_is_reported() {
    let inverses = [None, Some(1), None, None];
    assert_eq!(
        inversion_components_from_inverses(2, &inverses),
        Err(Gf2GeneratorError::NonInvertibleElement { element: 2 })
    );
}

#[test]
fn width_above_the_bound_is_refused() {
    assert_eq!(
        inversion_components_from_inverses(MAX_GF2_INVERSION_BITS + 1, &[]),
        Err(Gf2GeneratorError::WidthTooLarge { width: 17, maximum: MAX_GF2_INVERSION_BITS })
    );
}

#[test]
fn gf8_inversion_components_are_balanced() {
    // GF(8) with modulus x^3 + x + 1.
    let mul = |a: u64, b: u64| {
        let mut product = 0u64;
        for i in 0..3 {
            if b >> i & 1 == 1 {
                product ^= a << i;
            }
        }
        for i in (3..5).rev() {
            if product >> i & 1 == 1 {
                product ^= 0b1011 << (i - 3);
            }
        }
        product
    };
    let inverses: Vec<Option<u64>> =
        (0..8u64).map(|x| (1..8u64).find(|&y| mul(x, y) == 1)).collect();
    let functions = inversion_components_from_inverses(3, &inverses).unwrap();
    assert_eq!(functions.len(), 3);
    for function in &functions {
        let metrics = function.exact_metrics();
        assert!(metrics.balanced);
        assert_eq!(metrics.algebraic_degree, 2);
    }
}
