//! Boolean component functions of inversion in a binary extension field.
//!
//! For `GF(2^k)` the inversion map `x -> x^-1` (with zero mapped to zero)
//! has `k` scalar component functions `f_j: F_2^k -> F_2`; `f_j(x)` is bit
//! `j` of `x^-1` in the field's polynomial basis. The field arithmetic
//! itself is supplied by the caller as the inverse of every element.

use vstd::prelude::*;
use vstd::arithmetic::power2::pow2;
use crate::function::{BooleanFunction, FunctionError};
use crate::spectral::lemma_rows_bound;

verus! {

/// Practical exhaustive bound for the finite-field inversion generator: one
/// truth table per field coordinate scales as `k * 2^k` bytes.
pub const MAX_GF2_INVERSION_BITS: u32 = 16;

/// Errors raised while generating Boolean component functions from a binary
/// extension field.
#[derive(Clone, Debug, PartialEq, Eq)]
pub enum Gf2GeneratorError {
    WidthTooLarge { width: u32, maximum: u32 },
    NonInvertibleElement { element: u64 },
    Function(FunctionError),
}

/// The field image of `x` under inversion: zero for zero, else the reported inverse.
pub open spec fn inverse_of(inverses: Seq<Option<u64>>, x: int) -> u64 {
    if x == 0 {
        0
    } else {
        match inverses[x] {
            Some(y) => y,
            None => 0,
        }
    }
}

/// `e` is the first nonzero element the field reports as not invertible.
pub open spec fn first_non_invertible(inverses: Seq<Option<u64>>, e: int) -> bool {
    &&& 1 <= e < inverses.len()
    &&& inverses[e] is None
    &&& forall|x: int| 1 <= x < e ==> #[trigger] inverses[x] is Some
}

/// Bit `j` of the inverse of every element, as a truth table.
pub open spec fn component_table(inverses: Seq<Option<u64>>, j: int) -> Seq<u8> {
    Seq::new(inverses.len(), |x: int| ((inverse_of(inverses, x) >> (j as u64)) & 1) as u8)
}

/// Component functions of the inversion map of `GF(2^degree)`, given
/// `inverses[x]`, the field's inverse of each element `x` (`None` when `x` has
/// none; entry 0 is not read, zero maps to zero). Function `j` is bit `j` of
/// the inverse.
///
/// # Errors
///
/// [`Gf2GeneratorError::WidthTooLarge`] above [`MAX_GF2_INVERSION_BITS`],
/// and [`Gf2GeneratorError::NonInvertibleElement`] for the first nonzero
/// element without an inverse, which happens when the reduction polynomial
/// does not define a field.
pub fn inversion_components_from_inverses(degree: u32, inverses: &[Option<u64>]) -> (result: Result<
    Vec<BooleanFunction>,
    Gf2GeneratorError,
>)
    requires
        degree <= MAX_GF2_INVERSION_BITS ==> inverses@.len() == pow2(degree as nat),
    ensures
        degree > MAX_GF2_INVERSION_BITS ==> result == Err::<Vec<BooleanFunction>, Gf2GeneratorError>(
            Gf2GeneratorError::WidthTooLarge { width: degree, maximum: MAX_GF2_INVERSION_BITS },
        ),
        degree <= MAX_GF2_INVERSION_BITS ==> forall|e: int| #[trigger] first_non_invertible(inverses@, e) ==> result
            == Err::<Vec<BooleanFunction>, Gf2GeneratorError>(
            Gf2GeneratorError::NonInvertibleElement { element: e as u64 },
        ),
        degree <= MAX_GF2_INVERSION_BITS && (forall|x: int| 1 <= x < inverses@.len() ==> #[trigger] inverses@[x] is Some)
            ==> (result matches Ok(functions) && functions@.len() == degree && forall|j: int|
            0 <= j < degree ==> (#[trigger] functions@[j]).input_width() == degree && functions@[j].table()
                == component_table(inverses@, j)),
{
    if degree > MAX_GF2_INVERSION_BITS {
        return Err(Gf2GeneratorError::WidthTooLarge { width: degree, maximum: MAX_GF2_INVERSION_BITS });
    }
    proof {
        lemma_rows_bound(degree as nat);
    }
    let order = inverses.len();
    let mut images: Vec<u64> = Vec::new();
    let mut element: usize = 0;
    while element < order
        invariant
            degree <= MAX_GF2_INVERSION_BITS,
            order == inverses@.len(),
            element <= order,
            images@.len() == element,
            forall|x: int| 0 <= x < element ==> #[trigger] images@[x] == inverse_of(inverses@, x),
            forall|x: int| 1 <= x < element ==> #[trigger] inverses@[x] is Some,
        decreases order - element,
    {
        let image = if element == 0 {
            0
        } else {
            match inverses[element] {
                Some(y) => y,
                None => {
                    proof {
                        let e = element as int;
                        assert(first_non_invertible(inverses@, e));
                        assert forall|f: int| #[trigger] first_non_invertible(inverses@, f) implies f == e by {
                            if f < e {
                                assert(inverses@[f] is Some);
                            } else if f > e {
                                assert(inverses@[e] is Some);
                            }
                        }
                    }
                    return Err(Gf2GeneratorError::NonInvertibleElement { element: element as u64 });
                },
            }
        };
        images.push(image);
        element += 1;
    }
    let mut functions: Vec<BooleanFunction> = Vec::new();
    let mut bit: u32 = 0;
    while bit < degree
        invariant
            degree <= MAX_GF2_INVERSION_BITS,
            1 <= pow2(degree as nat) <= 0x100000,
            order == inverses@.len(),
            order == pow2(degree as nat),
            images@.len() == order,
            forall|x: int| 0 <= x < order ==> #[trigger] images@[x] == inverse_of(inverses@, x),
            bit <= degree,
            functions@.len() == bit,
            forall|j: int| 0 <= j < bit ==> (#[trigger] functions@[j]).input_width() == degree && functions@[j].table()
                == component_table(inverses@, j),
        decreases degree - bit,
    {
        let mut table: Vec<u8> = Vec::new();
        let mut x: usize = 0;
        while x < order
            invariant
                order == images@.len(),
                x <= order,
                bit < 64,
                table@.len() == x,
                forall|y: int| 0 <= y < x ==> #[trigger] table@[y] == ((images@[y] >> (bit as u64)) & 1) as u8,
            decreases order - x,
        {
            table.push(((images[x] >> (bit as u64)) & 1) as u8);
            x += 1;
        }
        proof {
            assert(table@ =~= component_table(inverses@, bit as int));
            assert forall|y: int| 0 <= y < table@.len() implies #[trigger] table@[y] <= 1 by {
                let v = images@[y];
                let b = bit as u64;
                assert(((v >> b) & 1) <= 1) by (bit_vector);
            }
        }
        match BooleanFunction::new(degree, table) {
            Ok(f) => functions.push(f),
            Err(e) => return Err(Gf2GeneratorError::Function(e)),
        }
        bit += 1;
    }
    Ok(functions)
}

} // verus!
