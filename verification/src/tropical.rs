//! Exact bounded Boolean × tropical (max-plus) controls.
//!
//! A tropical polynomial is evaluated over Boolean inputs embedded as exact
//! integers `x_i ∈ {0,1}`. Tropical multiplication of selected variables is
//! ordinary integer addition and tropical addition between monomials is `max`.
//! The Boolean observation boundary compares two such polynomials. This module
//! is a deterministic control generator, not a novelty or performance claim.

use vstd::prelude::*;
use vstd::arithmetic::power2::pow2;
use crate::bitwise::bit_weight;
use crate::function::{BooleanFunction, FunctionError};
use crate::spectral::{row_weight, MAX_EXACT_BITS, lemma_rows_bound};

verus! {

/// Exhaustive bound for the tropical control generator.
pub const MAX_TROPICAL_CONTROL_BITS: u32 = 16;

/// One max-plus monomial `constant + Σ x_i` over the variables in `variables`.
#[derive(Clone, Copy, Debug, PartialEq, Eq, Structural)]
pub struct TropicalMonomial {
    pub constant: i64,
    /// Bit `i` selects Boolean input variable `x_i`.
    pub variables: u64,
}

/// Exact max-plus polynomial over a fixed Boolean input width.
#[derive(Debug, PartialEq, Eq)]
pub struct TropicalPolynomial {
    input_bits: u32,
    monomials: Vec<TropicalMonomial>,
}

/// Boolean observation applied to a pair of tropical polynomials.
#[derive(Clone, Copy, Debug, PartialEq, Eq, Structural)]
pub enum TropicalComparison {
    Greater,
    GreaterOrEqual,
}

/// One exact Boolean predicate induced by two max-plus polynomials.
#[derive(Debug, PartialEq, Eq)]
pub struct TropicalPredicate {
    left: TropicalPolynomial,
    right: TropicalPolynomial,
    comparison: TropicalComparison,
}

/// Fail-closed errors for bounded tropical controls.
#[derive(Clone, Debug, PartialEq, Eq)]
pub enum TropicalError {
    ZeroInputBits,
    WidthTooLarge { width: u32, maximum: u32 },
    EmptyPolynomial,
    VariableOutOfRange { variables: u64, input_bits: u32 },
    InputOutOfRange { input: u64, input_bits: u32 },
    WidthMismatch { left: u32, right: u32 },
    ArithmeticOverflow,
    Function(FunctionError),
}

/// Number of selected variables that are one in `input`.
pub open spec fn active_count(m: TropicalMonomial, input: u64) -> nat {
    bit_weight((input & m.variables) as int, 64)
}

/// Exact value of one monomial at one packed Boolean input.
pub open spec fn monomial_value(m: TropicalMonomial, input: u64) -> int {
    m.constant + active_count(m, input)
}

/// Some monomial of `terms` exceeds the `i64` range at `input`.
pub open spec fn overflows(terms: Seq<TropicalMonomial>, input: u64) -> bool {
    exists|i: int| 0 <= i < terms.len() && #[trigger] monomial_value(terms[i], input) > i64::MAX
}

/// Maximum monomial value over the first `k >= 1` terms.
pub open spec fn max_plus_upto(terms: Seq<TropicalMonomial>, input: u64, k: nat) -> int
    decreases k,
{
    if k <= 1 {
        monomial_value(terms[0], input)
    } else {
        let rest = max_plus_upto(terms, input, (k - 1) as nat);
        let last = monomial_value(terms[k - 1], input);
        if last > rest {
            last
        } else {
            rest
        }
    }
}

/// Exact max-plus value of a non-empty monomial list.
pub open spec fn max_plus(terms: Seq<TropicalMonomial>, input: u64) -> int {
    max_plus_upto(terms, input, terms.len())
}

/// Every variable mask of `terms` addresses only the low `n` inputs.
pub open spec fn masks_in_range(terms: Seq<TropicalMonomial>, n: nat) -> bool {
    forall|i: int| 0 <= i < terms.len() ==> #[trigger] terms[i].variables < pow2(n)
}

/// `i` is the first monomial whose mask addresses an input at or above `n`.
pub open spec fn first_mask_out_of_range(terms: Seq<TropicalMonomial>, n: nat, i: int) -> bool {
    &&& 0 <= i < terms.len()
    &&& terms[i].variables >= pow2(n)
    &&& forall|j: int| 0 <= j < i ==> #[trigger] terms[j].variables < pow2(n)
}

/// The maximum is attained by some monomial and bounds every monomial.
pub proof fn lemma_max_plus_upto(terms: Seq<TropicalMonomial>, input: u64, k: nat)
    requires
        1 <= k <= terms.len(),
    ensures
        exists|i: int| 0 <= i < k && #[trigger] monomial_value(terms[i], input) == max_plus_upto(terms, input, k),
        forall|i: int| 0 <= i < k ==> #[trigger] monomial_value(terms[i], input) <= max_plus_upto(terms, input, k),
    decreases k,
{
    if k > 1 {
        lemma_max_plus_upto(terms, input, (k - 1) as nat);
        if monomial_value(terms[k - 1], input) > max_plus_upto(terms, input, (k - 1) as nat) {
            assert(monomial_value(terms[k - 1], input) == max_plus_upto(terms, input, k));
        }
    } else {
        assert(monomial_value(terms[0], input) == max_plus_upto(terms, input, k));
    }
}

impl TropicalPolynomial {
    /// Input width.
    pub closed spec fn width(self) -> nat {
        self.input_bits as nat
    }

    /// Monomials in declaration order.
    pub closed spec fn terms(self) -> Seq<TropicalMonomial> {
        self.monomials@
    }

    #[verifier::type_invariant]
    closed spec fn well_formed(self) -> bool {
        &&& 1 <= self.input_bits <= MAX_TROPICAL_CONTROL_BITS
        &&& self.monomials@.len() >= 1
        &&& masks_in_range(self.monomials@, self.input_bits as nat)
    }

    /// Builds a bounded exact max-plus polynomial.
    ///
    /// # Errors
    ///
    /// Rejects zero or oversized widths, an empty monomial list, and the first
    /// variable mask that addresses an input outside the declared width.
    pub fn new(input_bits: u32, monomials: Vec<TropicalMonomial>) -> (result: Result<Self, TropicalError>)
        ensures
            input_bits == 0 ==> result == Err::<Self, TropicalError>(TropicalError::ZeroInputBits),
            input_bits > MAX_TROPICAL_CONTROL_BITS ==> result == Err::<Self, TropicalError>(
                TropicalError::WidthTooLarge { width: input_bits, maximum: MAX_TROPICAL_CONTROL_BITS },
            ),
            1 <= input_bits <= MAX_TROPICAL_CONTROL_BITS && monomials@.len() == 0 ==> result == Err::<
                Self,
                TropicalError,
            >(TropicalError::EmptyPolynomial),
            1 <= input_bits <= MAX_TROPICAL_CONTROL_BITS && monomials@.len() > 0 ==> match result {
                Ok(p) => p.width() == input_bits && p.terms() == monomials@ && masks_in_range(
                    monomials@,
                    input_bits as nat,
                ),
                Err(e) => exists|i: int|
                    first_mask_out_of_range(monomials@, input_bits as nat, i) && e
                        == TropicalError::VariableOutOfRange {
                        variables: monomials@[i].variables,
                        input_bits,
                    },
            },
    {
        if input_bits == 0 {
            return Err(TropicalError::ZeroInputBits);
        }
        if input_bits > MAX_TROPICAL_CONTROL_BITS {
            return Err(TropicalError::WidthTooLarge { width: input_bits, maximum: MAX_TROPICAL_CONTROL_BITS });
        }
        if monomials.len() == 0 {
            return Err(TropicalError::EmptyPolynomial);
        }
        proof {
            lemma_rows_bound(input_bits as nat);
            vstd::bits::lemma_u64_shl_is_mul(1, input_bits as u64);
        }
        let valid_mask: u64 = (1u64 << (input_bits as u64)) - 1;
        let mut i: usize = 0;
        while i < monomials.len()
            invariant
                1 <= input_bits <= MAX_TROPICAL_CONTROL_BITS,
                valid_mask == pow2(input_bits as nat) - 1,
                (1u64 << (input_bits as u64)) == pow2(input_bits as nat),
                i <= monomials@.len(),
                forall|j: int| 0 <= j < i ==> #[trigger] monomials@[j].variables < pow2(input_bits as nat),
            decreases monomials@.len() - i,
        {
            let variables = monomials[i].variables;
            assert((variables & !valid_mask != 0) == (variables > valid_mask)) by (bit_vector)
                requires
                    valid_mask == (1u64 << (input_bits as u64)) - 1,
                    1 <= input_bits <= 16,
            ;
            if variables & !valid_mask != 0 {
                proof {
                    assert(first_mask_out_of_range(monomials@, input_bits as nat, i as int));
                }
                return Err(TropicalError::VariableOutOfRange { variables, input_bits });
            }
            i += 1;
        }
        Ok(Self { input_bits, monomials })
    }

    /// Input width. Every polynomial has a width within the control bound,
    /// at least one monomial, and masks that address declared inputs only.
    pub fn input_bits(&self) -> (bits: u32)
        ensures
            bits == self.width(),
            1 <= self.width() <= MAX_TROPICAL_CONTROL_BITS,
            self.terms().len() >= 1,
            masks_in_range(self.terms(), self.width()),
    {
        proof {
            use_type_invariant(self);
        }
        self.input_bits
    }

    /// Evaluates the exact max-plus polynomial at one packed Boolean input.
    ///
    /// # Errors
    ///
    /// [`TropicalError::InputOutOfRange`] for an input outside the declared
    /// width, and [`TropicalError::ArithmeticOverflow`] when a monomial value
    /// leaves the `i64` range.
    pub fn evaluate(&self, input: u64) -> (result: Result<i64, TropicalError>)
        ensures
            input >= pow2(self.width()) ==> result == Err::<i64, TropicalError>(
                TropicalError::InputOutOfRange { input, input_bits: self.width() as u32 },
            ),
            input < pow2(self.width()) && overflows(self.terms(), input) ==> result == Err::<
                i64,
                TropicalError,
            >(TropicalError::ArithmeticOverflow),
            input < pow2(self.width()) && !overflows(self.terms(), input) ==> result == Ok::<
                i64,
                TropicalError,
            >(max_plus(self.terms(), input) as i64),
            result matches Ok(v) ==> v == max_plus(self.terms(), input),
    {
        proof {
            use_type_invariant(self);
            lemma_rows_bound(self.input_bits as nat);
            vstd::bits::lemma_u64_shl_is_mul(1, self.input_bits as u64);
        }
        if input >= (1u64 << (self.input_bits as u64)) {
            return Err(TropicalError::InputOutOfRange { input, input_bits: self.input_bits });
        }
        let ghost terms = self.monomials@;
        let mut best: i64 = 0;
        let mut i: usize = 0;
        while i < self.monomials.len()
            invariant
                terms == self.monomials@,
                terms.len() >= 1,
                input < pow2(self.input_bits as nat),
                i <= terms.len(),
                i >= 1 ==> best == max_plus_upto(terms, input, i as nat),
                forall|j: int| 0 <= j < i ==> #[trigger] monomial_value(terms[j], input) <= i64::MAX,
            decreases terms.len() - i,
        {
            let m = self.monomials[i];
            let active = row_weight(input & m.variables, 64);
            match m.constant.checked_add(active as i64) {
                None => {
                    proof {
                        assert(monomial_value(terms[i as int], input) > i64::MAX);
                    }
                    return Err(TropicalError::ArithmeticOverflow);
                },
                Some(value) => {
                    if i == 0 || value > best {
                        best = value;
                    }
                },
            }
            i += 1;
        }
        proof {
            assert(!overflows(terms, input));
        }
        Ok(best)
    }
}

impl Clone for TropicalPolynomial {
    fn clone(&self) -> (copy: Self)
        ensures
            copy.width() == self.width(),
            copy.terms() == self.terms(),
    {
        proof {
            use_type_invariant(self);
        }
        let mut monomials: Vec<TropicalMonomial> = Vec::new();
        let mut i: usize = 0;
        while i < self.monomials.len()
            invariant
                i <= self.monomials@.len(),
                monomials@ == self.monomials@.take(i as int),
            decreases self.monomials@.len() - i,
        {
            monomials.push(self.monomials[i]);
            proof {
                assert(self.monomials@.take(i + 1) =~= self.monomials@.take(i as int).push(self.monomials@[i as int]));
            }
            i += 1;
        }
        proof {
            assert(self.monomials@.take(i as int) =~= self.monomials@);
        }
        Self { input_bits: self.input_bits, monomials }
    }
}

impl Clone for TropicalPredicate {
    fn clone(&self) -> (copy: Self)
        ensures
            copy.left_polynomial().width() == self.left_polynomial().width(),
            copy.left_polynomial().terms() == self.left_polynomial().terms(),
            copy.right_polynomial().width() == self.right_polynomial().width(),
            copy.right_polynomial().terms() == self.right_polynomial().terms(),
            copy.relation() == self.relation(),
    {
        proof {
            use_type_invariant(self);
        }
        Self { left: self.left.clone(), right: self.right.clone(), comparison: self.comparison }
    }
}

/// `l > r` or `l >= r`, as `c` declares.
pub open spec fn comparison_holds(l: int, r: int, c: TropicalComparison) -> bool {
    match c {
        TropicalComparison::Greater => l > r,
        TropicalComparison::GreaterOrEqual => l >= r,
    }
}

/// `p` observed at `input`: `left > right` or `left >= right`.
pub open spec fn predicate_holds(p: TropicalPredicate, input: u64) -> bool {
    comparison_holds(
        max_plus(p.left_polynomial().terms(), input),
        max_plus(p.right_polynomial().terms(), input),
        p.relation(),
    )
}

/// Evaluating `p` at `input` overflows on either side.
pub open spec fn predicate_overflows(p: TropicalPredicate, input: u64) -> bool {
    overflows(p.left_polynomial().terms(), input) || overflows(p.right_polynomial().terms(), input)
}

/// The truth table of `p`: row `x` is one exactly when `p` holds at `x`.
pub open spec fn predicate_table(p: TropicalPredicate) -> Seq<u8> {
    Seq::new(
        pow2(p.left_polynomial().width()),
        |x: int| if predicate_holds(p, x as u64) { 1u8 } else { 0u8 },
    )
}

impl TropicalPredicate {
    /// Left-hand polynomial.
    pub closed spec fn left_polynomial(self) -> TropicalPolynomial {
        self.left
    }

    /// Right-hand polynomial.
    pub closed spec fn right_polynomial(self) -> TropicalPolynomial {
        self.right
    }

    /// Observation boundary.
    pub closed spec fn relation(self) -> TropicalComparison {
        self.comparison
    }

    #[verifier::type_invariant]
    closed spec fn same_width(self) -> bool {
        self.left.width() == self.right.width()
    }

    /// Binds two same-width tropical polynomials to a Boolean comparison.
    ///
    /// # Errors
    ///
    /// [`TropicalError::WidthMismatch`] when the widths differ.
    pub fn new(left: TropicalPolynomial, right: TropicalPolynomial, comparison: TropicalComparison) -> (result: Result<
        Self,
        TropicalError,
    >)
        ensures
            left.width() != right.width() ==> result == Err::<Self, TropicalError>(
                TropicalError::WidthMismatch { left: left.width() as u32, right: right.width() as u32 },
            ),
            left.width() == right.width() ==> (result matches Ok(p) && p.left_polynomial() == left
                && p.right_polynomial() == right && p.relation() == comparison),
    {
        let left_bits = left.input_bits();
        let right_bits = right.input_bits();
        if left_bits != right_bits {
            return Err(TropicalError::WidthMismatch { left: left_bits, right: right_bits });
        }
        Ok(Self { left, right, comparison })
    }

    /// Input width, shared by both sides.
    pub fn input_bits(&self) -> (bits: u32)
        ensures
            bits == self.left_polynomial().width(),
            bits == self.right_polynomial().width(),
    {
        proof {
            use_type_invariant(self);
        }
        self.left.input_bits()
    }

    /// Evaluates the declared Boolean observation boundary.
    ///
    /// # Errors
    ///
    /// The left polynomial's evaluation error, else the right polynomial's.
    pub fn evaluate(&self, input: u64) -> (result: Result<bool, TropicalError>)
        ensures
            input >= pow2(self.left_polynomial().width()) ==> result == Err::<bool, TropicalError>(
                TropicalError::InputOutOfRange { input, input_bits: self.left_polynomial().width() as u32 },
            ),
            input < pow2(self.left_polynomial().width()) && predicate_overflows(*self, input) ==> result
                == Err::<bool, TropicalError>(TropicalError::ArithmeticOverflow),
            input < pow2(self.left_polynomial().width()) && !predicate_overflows(*self, input) ==> result
                == Ok::<bool, TropicalError>(predicate_holds(*self, input)),
    {
        proof {
            use_type_invariant(self);
        }
        let left = match self.left.evaluate(input) {
            Ok(value) => value,
            Err(error) => return Err(error),
        };
        let right = match self.right.evaluate(input) {
            Ok(value) => value,
            Err(error) => return Err(error),
        };
        Ok(
            match self.comparison {
                TropicalComparison::Greater => left > right,
                TropicalComparison::GreaterOrEqual => left >= right,
            },
        )
    }

    /// Exhaustively materializes the induced Boolean truth table.
    ///
    /// # Errors
    ///
    /// [`TropicalError::ArithmeticOverflow`] when evaluation overflows on some row.
    pub fn boolean_function(&self) -> (result: Result<BooleanFunction, TropicalError>)
        ensures
            (exists|x: int| 0 <= x < pow2(self.left_polynomial().width()) && #[trigger] predicate_overflows(*self, x as u64))
                ==> result == Err::<BooleanFunction, TropicalError>(TropicalError::ArithmeticOverflow),
            !(exists|x: int| 0 <= x < pow2(self.left_polynomial().width()) && #[trigger] predicate_overflows(*self, x as u64))
                ==> (result matches Ok(f) && f.input_width() == self.left_polynomial().width() && f.table()
                == predicate_table(*self)),
            result matches Ok(f) ==> f.table().len() == pow2(self.left_polynomial().width()) && forall|x: int|
                0 <= x < f.table().len() ==> !predicate_overflows(*self, x as u64) && (#[trigger] f.table()[x] == 1
                    <==> predicate_holds(*self, x as u64)),
    {
        proof {
            use_type_invariant(self);
            use_type_invariant(&self.left);
            lemma_rows_bound(self.left.input_bits as nat);
            vstd::bits::lemma_u64_shl_is_mul(1, self.left.input_bits as u64);
        }
        let bits = self.input_bits();
        let rows: u64 = 1u64 << (bits as u64);
        let ghost n = bits as nat;
        let mut table: Vec<u8> = Vec::new();
        let mut input: u64 = 0;
        while input < rows
            invariant
                n == self.left_polynomial().width(),
                rows == pow2(n),
                1 <= n <= MAX_TROPICAL_CONTROL_BITS,
                input <= rows,
                table@.len() == input,
                forall|x: int| 0 <= x < input ==> !#[trigger] predicate_overflows(*self, x as u64),
                forall|x: int| 0 <= x < input ==> #[trigger] table@[x] == if predicate_holds(*self, x as u64) {
                    1u8
                } else {
                    0u8
                },
            decreases rows - input,
        {
            let holds = match self.evaluate(input) {
                Ok(value) => value,
                Err(error) => {
                    proof {
                        let y = input as int;
                        assert(predicate_overflows(*self, y as u64));
                    }
                    return Err(error);
                },
            };
            table.push(if holds { 1u8 } else { 0u8 });
            input += 1;
        }
        proof {
            assert(table@ =~= predicate_table(*self));
            assert forall|x: int| 0 <= x < pow2(n) implies !#[trigger] predicate_overflows(*self, x as u64) by {}
            assert(MAX_TROPICAL_CONTROL_BITS <= MAX_EXACT_BITS);
        }
        match BooleanFunction::new(bits, table) {
            Ok(function) => Ok(function),
            Err(error) => Err(TropicalError::Function(error)),
        }
    }
}

/// Left monomials (`side` false) or right monomials (`side` true) of control `i`.
pub open spec fn control_terms(i: int, side: bool) -> Seq<TropicalMonomial> {
    let m = |constant: i64, variables: u64| TropicalMonomial { constant, variables };
    if i == 0 {
        if !side {
            seq![m(0, 0b0011), m(1, 0b0100)]
        } else {
            seq![m(0, 0b0110), m(1, 0b0001)]
        }
    } else if i == 1 {
        if !side {
            seq![m(-1i64, 0b1010), m(0, 0b0101)]
        } else {
            seq![m(-1i64, 0b1100), m(0, 0b0011)]
        }
    } else if i == 2 {
        if !side {
            seq![m(0, 0b1001), m(0, 0b0110), m(1, 0)]
        } else {
            seq![m(0, 0b0101), m(0, 0b1010), m(1, 0)]
        }
    } else {
        if !side {
            seq![m(-2i64, 0b1111), m(0, 0b0010), m(0, 0b1000)]
        } else {
            seq![m(-1i64, 0b0111), m(0, 0b0100)]
        }
    }
}

/// Observation boundary of control `i`: strict for the first and third.
pub open spec fn control_relation(i: int) -> TropicalComparison {
    if i == 0 || i == 2 {
        TropicalComparison::Greater
    } else {
        TropicalComparison::GreaterOrEqual
    }
}

/// `v` is the frozen four-input control family, in order.
pub open spec fn is_control_family(v: Seq<TropicalPredicate>) -> bool {
    &&& v.len() == 4
    &&& forall|i: int|
        0 <= i < 4 ==> {
            &&& (#[trigger] v[i]).left_polynomial().width() == 4
            &&& v[i].right_polynomial().width() == 4
            &&& v[i].left_polynomial().terms() == control_terms(i, false)
            &&& v[i].right_polynomial().terms() == control_terms(i, true)
            &&& v[i].relation() == control_relation(i)
        }
}

/// A four-input control polynomial from literal monomials.
fn control_polynomial(monomials: Vec<TropicalMonomial>) -> (result: Result<TropicalPolynomial, TropicalError>)
    requires
        monomials@.len() > 0,
        forall|i: int| 0 <= i < monomials@.len() ==> #[trigger] monomials@[i].variables < 16,
    ensures
        result matches Ok(p) && p.width() == 4 && p.terms() == monomials@,
{
    proof {
        vstd::arithmetic::power2::lemma2_to64();
    }
    TropicalPolynomial::new(4, monomials)
}

/// One control predicate from literal monomials.
fn control_predicate(
    left: Vec<TropicalMonomial>,
    right: Vec<TropicalMonomial>,
    comparison: TropicalComparison,
) -> (result: Result<TropicalPredicate, TropicalError>)
    requires
        left@.len() > 0,
        right@.len() > 0,
        forall|i: int| 0 <= i < left@.len() ==> #[trigger] left@[i].variables < 16,
        forall|i: int| 0 <= i < right@.len() ==> #[trigger] right@[i].variables < 16,
    ensures
        result matches Ok(p) && p.left_polynomial().width() == 4 && p.right_polynomial().width() == 4
            && p.left_polynomial().terms() == left@ && p.right_polynomial().terms() == right@
            && p.relation() == comparison,
{
    let l = match control_polynomial(left) {
        Ok(p) => p,
        Err(e) => return Err(e),
    };
    let r = match control_polynomial(right) {
        Ok(p) => p,
        Err(e) => return Err(e),
    };
    TropicalPredicate::new(l, r, comparison)
}

/// The frozen four-input control family.
///
/// The four comparisons mix singleton and multi-variable tropical monomials
/// and both strict and non-strict observation boundaries. They are small
/// enough for complete truth-table evaluation and are controls only.
///
/// # Errors
///
/// None on the frozen data; a construction error would be returned as is.
pub fn bl13_4_control_predicates() -> (result: Result<Vec<TropicalPredicate>, TropicalError>)
    ensures
        result matches Ok(v) && is_control_family(v@),
{
    let m = |constant: i64, variables: u64| -> (r: TropicalMonomial)
        ensures
            r == (TropicalMonomial { constant, variables }),
        { TropicalMonomial { constant, variables } };
    let mut family: Vec<TropicalPredicate> = Vec::new();
    let p0 = match control_predicate(
        vec![m(0, 0b0011), m(1, 0b0100)],
        vec![m(0, 0b0110), m(1, 0b0001)],
        TropicalComparison::Greater,
    ) {
        Ok(p) => p,
        Err(e) => return Err(e),
    };
    family.push(p0);
    let p1 = match control_predicate(
        vec![m(-1, 0b1010), m(0, 0b0101)],
        vec![m(-1, 0b1100), m(0, 0b0011)],
        TropicalComparison::GreaterOrEqual,
    ) {
        Ok(p) => p,
        Err(e) => return Err(e),
    };
    family.push(p1);
    let p2 = match control_predicate(
        vec![m(0, 0b1001), m(0, 0b0110), m(1, 0)],
        vec![m(0, 0b0101), m(0, 0b1010), m(1, 0)],
        TropicalComparison::Greater,
    ) {
        Ok(p) => p,
        Err(e) => return Err(e),
    };
    family.push(p2);
    let p3 = match control_predicate(
        vec![m(-2, 0b1111), m(0, 0b0010), m(0, 0b1000)],
        vec![m(-1, 0b0111), m(0, 0b0100)],
        TropicalComparison::GreaterOrEqual,
    ) {
        Ok(p) => p,
        Err(e) => return Err(e),
    };
    family.push(p3);
    proof {
        assert forall|i: int| 0 <= i < 4 implies {
            &&& (#[trigger] family@[i]).left_polynomial().width() == 4
            &&& family@[i].right_polynomial().width() == 4
            &&& family@[i].left_polynomial().terms() == control_terms(i, false)
            &&& family@[i].right_polynomial().terms() == control_terms(i, true)
            &&& family@[i].relation() == control_relation(i)
        } by {
            if i == 0 {
                assert(family@[0].left_polynomial().terms() =~= control_terms(0, false));
                assert(family@[0].right_polynomial().terms() =~= control_terms(0, true));
            } else if i == 1 {
                assert(family@[1].left_polynomial().terms() =~= control_terms(1, false));
                assert(family@[1].right_polynomial().terms() =~= control_terms(1, true));
            } else if i == 2 {
                assert(family@[2].left_polynomial().terms() =~= control_terms(2, false));
                assert(family@[2].right_polynomial().terms() =~= control_terms(2, true));
            } else {
                assert(family@[3].left_polynomial().terms() =~= control_terms(3, false));
                assert(family@[3].right_polynomial().terms() =~= control_terms(3, true));
            }
        }
    }
    Ok(family)
}

} // verus!
