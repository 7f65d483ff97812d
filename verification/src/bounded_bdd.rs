//! Resource-bounded BDD construction with an exhaustive differential replay.
//!
//! The BDD backend is `biodivine_lib_bdd`. This module bounds the enumerable
//! input domain, every binary apply operation's operand-pair work estimate,
//! and the result-node count. A limit hit is a non-result: it is never SAT or
//! UNSAT evidence.

use vstd::prelude::*;
use vstd::arithmetic::power2::pow2;
use biodivine_lib_bdd::{Bdd, BddValuation, BddVariable, BddVariableSet, op_function};
use crate::bitwise::{bit, shr, lemma_shr_is_div};
use crate::function::{BooleanFunction, valid_truth_table};
use crate::spectral::{ones_upto, table_bit, lemma_rows_bound};

verus! {

/// Largest input domain admitted by this deliberately small BDD experiment.
pub const MAX_BDD_EXPERIMENT_INPUT_BITS: u32 = 8;

/// Explicit resource ceilings for one experimental BDD construction.
#[derive(Clone, Copy, Debug, PartialEq, Eq, Structural)]
pub struct BddExperimentLimits {
    /// Maximum nodes in the result of each BDD binary operation.
    pub max_result_nodes: usize,
    /// Maximum `left_nodes * right_nodes` admitted before a binary operation.
    pub max_apply_pairs: usize,
}

impl Default for BddExperimentLimits {
    fn default() -> (limits: Self)
        ensures
            limits == (BddExperimentLimits { max_result_nodes: 512, max_apply_pairs: 65_536 }),
    {
        Self { max_result_nodes: 512, max_apply_pairs: 65_536 }
    }
}

/// Why a bounded BDD experiment produced no qualified result.
#[derive(Clone, Copy, Debug, PartialEq, Eq, Structural)]
pub enum BddExperimentError {
    /// The exact Boolean function is wider than this bounded experiment.
    InputWidthTooLarge { input_bits: u32, maximum: u32 },
    /// A zero ceiling would make the resource contract ambiguous.
    ZeroResourceLimit,
    /// The operation was refused before dispatch because pair work was too large.
    ApplyPairLimit { estimated_pairs: usize, limit: usize },
    /// The BDD backend refused an operation because its result-node limit hit.
    ResultNodeLimit { limit: usize },
    /// Exhaustive replay disagreed with the exact truth table.
    SemanticMismatch { assignment: usize },
}

/// Differential report from a qualified bounded construction.
#[derive(Clone, Copy, Debug, PartialEq, Eq, Structural)]
pub struct BddExperimentReport {
    pub input_bits: u32,
    pub exhaustive_rows: usize,
    pub satisfying_rows: usize,
    pub final_nodes: usize,
    pub result_node_limit: usize,
    pub apply_pair_limit: usize,
}

#[verifier::external_type_specification]
#[verifier::external_body]
pub struct ExBdd(Bdd);

#[verifier::external_type_specification]
#[verifier::external_body]
pub struct ExBddVariableSet(BddVariableSet);

/// The valuations `(x_0, x_1, ...)` on which a BDD is true.
pub uninterp spec fn bdd_models(b: Bdd) -> Set<Seq<bool>>;

/// Number of nodes of a BDD, terminals included.
pub uninterp spec fn bdd_size(b: Bdd) -> nat;

/// Number of variables a BDD was made over.
pub uninterp spec fn bdd_width(b: Bdd) -> nat;

/// Number of variables of a variable set.
pub uninterp spec fn variable_count(s: BddVariableSet) -> nat;

/// Every valuation of `n` variables.
pub open spec fn all_valuations(n: nat) -> Set<Seq<bool>> {
    Set::new(|v: Seq<bool>| v.len() == n)
}

/// The BDD that `BddVariableSet::mk_false` makes over `num_vars` variables.
pub uninterp spec fn false_bdd(num_vars: nat) -> Bdd;

/// The BDD that `BddVariableSet::mk_true` makes over `num_vars` variables.
pub uninterp spec fn true_bdd(num_vars: nat) -> Bdd;

/// The BDD that `BddVariableSet::mk_literal` makes over `num_vars` variables
/// for variable `index`.
pub uninterp spec fn literal_bdd(num_vars: nat, index: usize, value: bool) -> Bdd;

/// The BDD that `Bdd::binary_op_with_limit` builds from `left` and `right`,
/// with `op_function::and` (`conjunction`) or `op_function::or`, when its limit
/// does not stop it (as `usize::MAX` never does).
pub uninterp spec fn bdd_apply(left: Bdd, right: Bdd, conjunction: bool) -> Bdd;

/// `BddVariableSet::new_anonymous`: a set of `num_vars` anonymous variables.
/// The source panics at `u16::MAX - 1` variables or more. Two sets made for
/// the same count need not be equal values (each holds its own name map).
#[verifier::external_body]
fn new_variable_set(num_vars: u16) -> (set: BddVariableSet)
    requires
        num_vars < u16::MAX - 1,
    ensures
        variable_count(set) == num_vars,
{
    BddVariableSet::new_anonymous(num_vars)
}

/// `BddVariableSet::mk_false`: the `false` function, a single terminal node.
#[verifier::external_body]
fn mk_false(set: &BddVariableSet) -> (b: Bdd)
    ensures
        b == false_bdd(variable_count(*set)),
        bdd_width(b) == variable_count(*set),
        bdd_models(b) == Set::<Seq<bool>>::empty(),
        bdd_size(b) == 1,
{
    set.mk_false()
}

/// `BddVariableSet::mk_true`: the `true` function, the two terminal nodes.
#[verifier::external_body]
fn mk_true(set: &BddVariableSet) -> (b: Bdd)
    ensures
        b == true_bdd(variable_count(*set)),
        bdd_width(b) == variable_count(*set),
        bdd_models(b) == all_valuations(variable_count(*set)),
        bdd_size(b) == 2,
{
    set.mk_true()
}

/// `BddVariableSet::mk_literal` for the variable of index `index`: the
/// function `x_index == value`, the two terminals and one decision node.
#[verifier::external_body]
fn mk_literal(set: &BddVariableSet, index: usize, value: bool) -> (b: Bdd)
    requires
        index < variable_count(*set),
    ensures
        b == literal_bdd(variable_count(*set), index, value),
        bdd_width(b) == variable_count(*set),
        bdd_size(b) == 3,
        bdd_models(b) == Set::new(|v: Seq<bool>| v.len() == variable_count(*set) && v[index as int] == value),
{
    set.mk_literal(BddVariable::from_index(index), value)
}

/// `Bdd::size`: the number of nodes. Only the `false` BDD has fewer than two
/// nodes (both terminals).
#[verifier::external_body]
fn size(b: &Bdd) -> (nodes: usize)
    ensures
        nodes == bdd_size(*b),
        bdd_models(*b) != Set::<Seq<bool>>::empty() ==> nodes >= 2,
{
    b.size()
}

/// `Bdd::binary_op_with_limit` with `op_function::and`. The backend only ever
/// adds nodes to the result it builds and gives up as soon as their number
/// exceeds `limit` (at once for a zero limit), so it returns the conjunction
/// `bdd_apply(left, right, true)` exactly when that has at most `limit` nodes,
/// and `None` otherwise.
#[verifier::external_body]
fn and_with_limit(limit: usize, left: &Bdd, right: &Bdd) -> (result: Option<Bdd>)
    requires
        bdd_width(*left) == bdd_width(*right),
    ensures
        result is None <==> (limit == 0 || bdd_size(bdd_apply(*left, *right, true)) > limit),
        result matches Some(b) ==> b == bdd_apply(*left, *right, true) && bdd_width(b) == bdd_width(*left)
            && bdd_models(b) == bdd_models(*left).intersect(bdd_models(*right)),
{
    Bdd::binary_op_with_limit(limit, left, right, op_function::and)
}

/// `Bdd::binary_op_with_limit` with `op_function::or`: as [`and_with_limit`],
/// for the disjunction `bdd_apply(left, right, false)`.
#[verifier::external_body]
fn or_with_limit(limit: usize, left: &Bdd, right: &Bdd) -> (result: Option<Bdd>)
    requires
        bdd_width(*left) == bdd_width(*right),
    ensures
        result is None <==> (limit == 0 || bdd_size(bdd_apply(*left, *right, false)) > limit),
        result matches Some(b) ==> b == bdd_apply(*left, *right, false) && bdd_width(b) == bdd_width(*left)
            && bdd_models(b) == bdd_models(*left).union(bdd_models(*right)),
{
    Bdd::binary_op_with_limit(limit, left, right, op_function::or)
}

/// `Bdd::eval_in` on the valuation `values`: whether it is a model.
#[verifier::external_body]
fn eval(b: &Bdd, values: Vec<bool>) -> (holds: bool)
    requires
        values@.len() == bdd_width(*b),
    ensures
        holds == bdd_models(*b).contains(values@),
{
    b.eval_in(&BddValuation::new(values))
}

/// The operand-pair work estimate of an apply, checked against its ceiling.
///
/// # Errors
///
/// [`BddExperimentError::ApplyPairLimit`] when the product of the operand
/// sizes exceeds `limits.max_apply_pairs`, with `usize::MAX` as the estimate
/// when the product does not fit in `usize`.
pub fn apply_pair_check(left_size: usize, right_size: usize, limits: BddExperimentLimits) -> (result: Result<
    usize,
    BddExperimentError,
>)
    ensures
        left_size * right_size > usize::MAX ==> result == Err::<usize, BddExperimentError>(
            BddExperimentError::ApplyPairLimit { estimated_pairs: usize::MAX, limit: limits.max_apply_pairs },
        ),
        left_size * right_size <= usize::MAX && left_size * right_size > limits.max_apply_pairs ==> result == Err::<
            usize,
            BddExperimentError,
        >(
            BddExperimentError::ApplyPairLimit {
                estimated_pairs: (left_size * right_size) as usize,
                limit: limits.max_apply_pairs,
            },
        ),
        left_size * right_size <= limits.max_apply_pairs ==> result == Ok::<usize, BddExperimentError>(
            (left_size * right_size) as usize,
        ),
{
    let estimated_pairs = match left_size.checked_mul(right_size) {
        Some(pairs) => pairs,
        None => {
            return Err(
                BddExperimentError::ApplyPairLimit { estimated_pairs: usize::MAX, limit: limits.max_apply_pairs },
            );
        },
    };
    if estimated_pairs > limits.max_apply_pairs {
        return Err(BddExperimentError::ApplyPairLimit { estimated_pairs, limit: limits.max_apply_pairs });
    }
    Ok(estimated_pairs)
}

/// The error of an apply whose operands have `left_size` and `right_size`
/// nodes, when the pair estimate exceeds its ceiling.
pub open spec fn pair_limit_error(left_size: nat, right_size: nat, limits: BddExperimentLimits) -> BddExperimentError {
    BddExperimentError::ApplyPairLimit {
        estimated_pairs: if left_size * right_size > usize::MAX {
            usize::MAX
        } else {
            (left_size * right_size) as usize
        },
        limit: limits.max_apply_pairs,
    }
}

/// One bounded apply as the library performs it: refused before dispatch
/// when the operand-pair estimate exceeds its ceiling, a non-result when the
/// backend's result exceeds the node ceiling, and that result otherwise.
pub open spec fn bdd_step(left: Bdd, right: Bdd, conjunction: bool, limits: BddExperimentLimits) -> Result<
    Bdd,
    BddExperimentError,
> {
    if bdd_size(left) * bdd_size(right) > limits.max_apply_pairs {
        Err(pair_limit_error(bdd_size(left), bdd_size(right), limits))
    } else if bdd_size(bdd_apply(left, right, conjunction)) > limits.max_result_nodes {
        Err(BddExperimentError::ResultNodeLimit { limit: limits.max_result_nodes })
    } else {
        Ok(bdd_apply(left, right, conjunction))
    }
}

/// One bounded conjunction (`conjunction`) or disjunction: refused before
/// dispatch when the pair estimate exceeds its ceiling, and a non-result when
/// the backend hits the result-node ceiling.
fn bounded_binary_op(left: &Bdd, right: &Bdd, conjunction: bool, limits: BddExperimentLimits) -> (result: Result<
    Bdd,
    BddExperimentError,
>)
    requires
        bdd_width(*left) == bdd_width(*right),
        limits.max_result_nodes > 0,
    ensures
        result == bdd_step(*left, *right, conjunction, limits),
        result matches Ok(b) ==> bdd_width(b) == bdd_width(*left) && bdd_size(b) <= limits.max_result_nodes
            && bdd_models(b) == if conjunction {
            bdd_models(*left).intersect(bdd_models(*right))
        } else {
            bdd_models(*left).union(bdd_models(*right))
        },
{
    match apply_pair_check(size(left), size(right), limits) {
        Ok(_) => {},
        Err(e) => return Err(e),
    }
    let applied = if conjunction {
        and_with_limit(limits.max_result_nodes, left, right)
    } else {
        or_with_limit(limits.max_result_nodes, left, right)
    };
    match applied {
        Some(b) => Ok(b),
        None => Err(BddExperimentError::ResultNodeLimit { limit: limits.max_result_nodes }),
    }
}

/// The minterm of row `a` over the first `k` variables, built as the library
/// builds it: `true` conjoined with the literals `x_0 == bit 0 of a`, ...,
/// `x_(k-1) == bit (k-1) of a`, each step bounded; the first refusal stands.
pub open spec fn minterm_run(n: nat, a: int, k: nat, limits: BddExperimentLimits) -> Result<
    Bdd,
    BddExperimentError,
>
    decreases k,
{
    if k == 0 {
        Ok(true_bdd(n))
    } else {
        match minterm_run(n, a, (k - 1) as nat, limits) {
            Ok(term) => bdd_step(term, literal_bdd(n, (k - 1) as usize, bit(a, (k - 1) as nat)), true, limits),
            Err(e) => Err(e),
        }
    }
}

/// The row-major DNF of the first `m` rows of table `t` over `n` variables:
/// `false` disjoined with the minterm of each row where the table is not
/// zero, each step bounded; the first refusal stands.
pub open spec fn dnf_run(t: Seq<u8>, n: nat, m: nat, limits: BddExperimentLimits) -> Result<
    Bdd,
    BddExperimentError,
>
    decreases m,
{
    if m == 0 {
        Ok(false_bdd(n))
    } else {
        match dnf_run(t, n, (m - 1) as nat, limits) {
            Ok(acc) => if t[m - 1] == 0 {
                Ok(acc)
            } else {
                match minterm_run(n, m - 1, n, limits) {
                    Ok(term) => bdd_step(acc, term, false, limits),
                    Err(e) => Err(e),
                }
            },
            Err(e) => Err(e),
        }
    }
}

/// A refused minterm step stays the outcome of every longer minterm.
proof fn lemma_minterm_refusal_stands(n: nat, a: int, k: nat, j: nat, limits: BddExperimentLimits)
    requires
        k <= j,
        minterm_run(n, a, k, limits) is Err,
    ensures
        minterm_run(n, a, j, limits) == minterm_run(n, a, k, limits),
    decreases j - k,
{
    if k < j {
        lemma_minterm_refusal_stands(n, a, k, (j - 1) as nat, limits);
    }
}

/// A refused DNF step stays the outcome of every longer prefix of rows.
proof fn lemma_dnf_refusal_stands(t: Seq<u8>, n: nat, m: nat, j: nat, limits: BddExperimentLimits)
    requires
        m <= j,
        dnf_run(t, n, m, limits) is Err,
    ensures
        dnf_run(t, n, j, limits) == dnf_run(t, n, m, limits),
    decreases j - m,
{
    if m < j {
        lemma_dnf_refusal_stands(t, n, m, (j - 1) as nat, limits);
    }
}

/// A ceiling hit: a pair estimate above its ceiling, or the result-node ceiling.
pub open spec fn is_limit_error(e: BddExperimentError, limits: BddExperimentLimits) -> bool {
    match e {
        BddExperimentError::ApplyPairLimit { estimated_pairs, limit } => limit == limits.max_apply_pairs && (
        estimated_pairs > limits.max_apply_pairs || estimated_pairs == usize::MAX),
        BddExperimentError::ResultNodeLimit { limit } => limit == limits.max_result_nodes,
        _ => false,
    }
}

/// The valuation of row `a` over `n` variables: `x_i` is bit `i` of `a`.
pub open spec fn row_valuation(a: int, n: nat) -> Seq<bool> {
    Seq::new(n, |i: int| bit(a, i as nat))
}

/// Valuations that agree with row `a` on the first `k` variables.
pub open spec fn prefix_models(a: int, n: nat, k: int) -> Set<Seq<bool>> {
    Set::new(|v: Seq<bool>| v.len() == n && forall|i: int| 0 <= i < k ==> v[i] == bit(a, i as nat))
}

/// Valuations of the rows below `m` where the table is one.
pub open spec fn rows_models(t: Seq<u8>, n: nat, m: int) -> Set<Seq<bool>> {
    Set::new(|v: Seq<bool>| exists|b: int| 0 <= b < m && t[b] == 1 && v == #[trigger] row_valuation(b, n))
}

/// Two rows below `2^n` with the same valuation are the same row.
proof fn lemma_row_valuation_injective(a: int, b: int, n: nat)
    requires
        0 <= a < pow2(n),
        0 <= b < pow2(n),
        row_valuation(a, n) == row_valuation(b, n),
    ensures
        a == b,
    decreases n,
{
    if n == 0 {
        vstd::arithmetic::power2::lemma2_to64();
    } else {
        assert(row_valuation(a, n)[0] == bit(a, 0nat));
        assert(row_valuation(b, n)[0] == bit(b, 0nat));
        let m = (n - 1) as nat;
        assert forall|i: int| 0 <= i < m implies #[trigger] row_valuation(a / 2, m)[i] == row_valuation(b / 2, m)[i] by {
            assert(row_valuation(a, n)[i + 1] == row_valuation(b, n)[i + 1]);
            assert(row_valuation(a, n)[i + 1] == bit(a, (i + 1) as nat));
            assert(row_valuation(b, n)[i + 1] == bit(b, (i + 1) as nat));
            assert(shr(a, (i + 1) as nat) == shr(a / 2, i as nat));
            assert(shr(b, (i + 1) as nat) == shr(b / 2, i as nat));
        }
        assert(row_valuation(a / 2, m) =~= row_valuation(b / 2, m));
        vstd::arithmetic::power2::lemma_pow2_unfold(n);
        lemma_row_valuation_injective(a / 2, b / 2, m);
    }
}

/// Bit `i` of `a` as the executable shift reads it.
proof fn lemma_row_bit(a: u64, i: u64)
    requires
        i < 64,
    ensures
        ((a >> i) & 1 != 0) == bit(a as int, i as nat),
{
    vstd::bits::lemma_u64_shr_is_div(a, i);
    lemma_shr_is_div(a as int, i as nat);
    let y = a >> i;
    assert(y & 1 == y % 2) by (bit_vector);
}

/// The valuation of row `assignment` over `n` variables.
fn valuation_of(assignment: u64, n: usize) -> (values: Vec<bool>)
    requires
        n <= 64,
    ensures
        values@ == row_valuation(assignment as int, n as nat),
{
    let mut values: Vec<bool> = Vec::new();
    let mut i: usize = 0;
    while i < n
        invariant
            n <= 64,
            i <= n,
            values@ == row_valuation(assignment as int, i as nat),
        decreases n - i,
    {
        proof {
            lemma_row_bit(assignment, i as u64);
        }
        values.push((assignment >> (i as u64)) & 1 != 0);
        proof {
            assert(values@ =~= row_valuation(assignment as int, (i + 1) as nat));
        }
        i += 1;
    }
    values
}

/// The minterm BDD of row `assignment`: the conjunction of its literals.
fn minterm(
    variables: &BddVariableSet,
    assignment: u64,
    n: usize,
    limits: BddExperimentLimits,
) -> (result: Result<Bdd, BddExperimentError>)
    requires
        n == variable_count(*variables),
        n <= 64,
        limits.max_result_nodes > 0,
    ensures
        result == minterm_run(n as nat, assignment as int, n as nat, limits),
        result matches Ok(term) ==> bdd_width(term) == n && bdd_models(term) == prefix_models(assignment as int, n as nat, n as int),
        result matches Err(e) ==> is_limit_error(e, limits),
{
    let mut term = mk_true(variables);
    proof {
        assert(bdd_models(term) =~= prefix_models(assignment as int, n as nat, 0));
    }
    let mut index: usize = 0;
    while index < n
        invariant
            n == variable_count(*variables),
            n <= 64,
            index <= n,
            limits.max_result_nodes > 0,
            minterm_run(n as nat, assignment as int, index as nat, limits) == Ok::<Bdd, BddExperimentError>(term),
            bdd_width(term) == n,
            bdd_models(term) == prefix_models(assignment as int, n as nat, index as int),
        decreases n - index,
    {
        proof {
            lemma_row_bit(assignment, index as u64);
        }
        let value = (assignment >> (index as u64)) & 1 != 0;
        let literal = mk_literal(variables, index, value);
        match bounded_binary_op(&term, &literal, true, limits) {
            Ok(next) => {
                proof {
                    assert(bdd_models(next) =~= prefix_models(assignment as int, n as nat, index + 1));
                }
                term = next;
            },
            Err(e) => {
                proof {
                    lemma_minterm_refusal_stands(n as nat, assignment as int, (index + 1) as nat, n as nat, limits);
                }
                return Err(e);
            },
        }
        index += 1;
    }
    Ok(term)
}

/// The BDD of the row-major DNF of table `t` over `n` variables, or the first
/// ceiling that refused a step of its construction.
pub open spec fn bdd_construction(n: nat, t: Seq<u8>, limits: BddExperimentLimits) -> Result<Bdd, BddExperimentError> {
    dnf_run(t, n, t.len(), limits)
}

/// `r` is the report of a qualified construction of table `t` over `n` inputs.
pub open spec fn is_experiment_report(r: BddExperimentReport, n: nat, t: Seq<u8>, limits: BddExperimentLimits) -> bool {
    &&& r.input_bits == n
    &&& r.exhaustive_rows == t.len()
    &&& r.satisfying_rows == ones_upto(t, t.len())
    &&& r.final_nodes <= limits.max_result_nodes
    &&& r.result_node_limit == limits.max_result_nodes
    &&& r.apply_pair_limit == limits.max_apply_pairs
}

/// Builds an exact Boolean function as a BDD under explicit resource ceilings
/// and replays it on every assignment.
///
/// Construction streams a row-major DNF from the exact truth table: one
/// minterm per satisfying row, each literal conjoined and each minterm
/// disjoined under both ceilings. The final BDD is then evaluated on all `2^n`
/// assignments against the source table; by construction it never disagrees.
///
/// # Errors
///
/// [`BddExperimentError::InputWidthTooLarge`] above
/// [`MAX_BDD_EXPERIMENT_INPUT_BITS`] inputs, [`BddExperimentError::ZeroResourceLimit`]
/// for a zero ceiling, and then [`BddExperimentError::ApplyPairLimit`] or
/// [`BddExperimentError::ResultNodeLimit`] when an operation hits a ceiling.
/// Every error is an explicit non-result.
pub fn run_bounded_bdd_experiment(function: &BooleanFunction, limits: BddExperimentLimits) -> (result: Result<
    BddExperimentReport,
    BddExperimentError,
>)
    ensures
        function.input_width() > MAX_BDD_EXPERIMENT_INPUT_BITS ==> result == Err::<BddExperimentReport, BddExperimentError>(
            BddExperimentError::InputWidthTooLarge {
                input_bits: function.input_width() as u32,
                maximum: MAX_BDD_EXPERIMENT_INPUT_BITS,
            },
        ),
        function.input_width() <= MAX_BDD_EXPERIMENT_INPUT_BITS && (limits.max_result_nodes == 0
            || limits.max_apply_pairs == 0) ==> result == Err::<BddExperimentReport, BddExperimentError>(
            BddExperimentError::ZeroResourceLimit,
        ),
        function.input_width() <= MAX_BDD_EXPERIMENT_INPUT_BITS && limits.max_result_nodes > 0 && limits.max_apply_pairs
            > 0 ==> match result {
            Ok(r) => is_experiment_report(r, function.input_width(), function.table(), limits),
            Err(e) => is_limit_error(e, limits),
        },
        function.input_width() <= MAX_BDD_EXPERIMENT_INPUT_BITS && limits.max_result_nodes > 0 && limits.max_apply_pairs
            > 0 ==> match bdd_construction(function.input_width(), function.table(), limits) {
            Ok(b) => result matches Ok(r) && r.final_nodes == bdd_size(b),
            Err(e) => result == Err::<BddExperimentReport, BddExperimentError>(e),
        },
{
    let input_bits = function.input_bits();
    if input_bits > MAX_BDD_EXPERIMENT_INPUT_BITS {
        return Err(BddExperimentError::InputWidthTooLarge { input_bits, maximum: MAX_BDD_EXPERIMENT_INPUT_BITS });
    }
    if limits.max_result_nodes == 0 || limits.max_apply_pairs == 0 {
        return Err(BddExperimentError::ZeroResourceLimit);
    }
    let table = function.truth_table();
    let ghost t = table@;
    let ghost n = input_bits as nat;
    let width = input_bits as usize;
    proof {
        lemma_rows_bound(n);
    }
    let variables = new_variable_set(input_bits as u16);
    let mut result = mk_false(&variables);
    proof {
        assert(bdd_models(result) =~= rows_models(t, n, 0));
    }
    let mut satisfying_rows: usize = 0;
    let mut assignment: usize = 0;
    while assignment < table.len()
        invariant
            t == table@,
            t == function.table(),
            n == function.input_width(),
            valid_truth_table(n, t),
            n == width,
            n <= MAX_BDD_EXPERIMENT_INPUT_BITS,
            width == variable_count(variables),
            limits.max_result_nodes > 0,
            limits.max_apply_pairs > 0,
            assignment <= t.len(),
            dnf_run(t, n, assignment as nat, limits) == Ok::<Bdd, BddExperimentError>(result),
            bdd_width(result) == n,
            bdd_models(result) == rows_models(t, n, assignment as int),
            bdd_size(result) <= limits.max_result_nodes,
            satisfying_rows == ones_upto(t, assignment as nat),
            satisfying_rows <= assignment,
        decreases t.len() - assignment,
    {
        if table[assignment] != 0 {
            let term = match minterm(&variables, assignment as u64, width, limits) {
                Ok(term) => term,
                Err(e) => {
                    proof {
                        lemma_dnf_refusal_stands(t, n, (assignment + 1) as nat, t.len(), limits);
                    }
                    return Err(e);
                },
            };
            match bounded_binary_op(&result, &term, false, limits) {
                Ok(next) => {
                    proof {
                        let a = assignment as int;
                        assert forall|v: Seq<bool>| #[trigger] prefix_models(a, n, n as int).contains(v) <==> v == row_valuation(a, n) by {
                            if prefix_models(a, n, n as int).contains(v) {
                                assert(v =~= row_valuation(a, n));
                            }
                        }
                        assert(prefix_models(a, n, n as int) =~= Set::new(|v: Seq<bool>| v == row_valuation(a, n)));
                        assert(bdd_models(next) =~= rows_models(t, n, a + 1)) by {
                            assert forall|v: Seq<bool>| #[trigger] rows_models(t, n, a + 1).contains(v)
                                implies bdd_models(next).contains(v) by {
                                let b = choose|b: int| 0 <= b < a + 1 && t[b] == 1 && v == #[trigger] row_valuation(b, n);
                                if b < a {
                                    assert(rows_models(t, n, a).contains(v));
                                }
                            }
                        }
                    }
                    result = next;
                },
                Err(e) => {
                    proof {
                        lemma_dnf_refusal_stands(t, n, (assignment + 1) as nat, t.len(), limits);
                    }
                    return Err(e);
                },
            }
            satisfying_rows += 1;
        } else {
            proof {
                assert(rows_models(t, n, assignment as int) =~= rows_models(t, n, assignment + 1));
                assert(dnf_run(t, n, (assignment + 1) as nat, limits) == Ok::<Bdd, BddExperimentError>(result));
            }
        }
        assignment += 1;
    }
    let mut row: usize = 0;
    while row < table.len()
        invariant
            t == table@,
            t == function.table(),
            n == function.input_width(),
            valid_truth_table(n, t),
            n == width,
            n <= MAX_BDD_EXPERIMENT_INPUT_BITS,
            limits.max_result_nodes > 0,
            limits.max_apply_pairs > 0,
            bdd_construction(n, t, limits) == Ok::<Bdd, BddExperimentError>(result),
            bdd_width(result) == n,
            bdd_models(result) == rows_models(t, n, t.len() as int),
            bdd_size(result) <= limits.max_result_nodes,
            satisfying_rows == ones_upto(t, t.len() as nat),
            row <= t.len(),
        decreases t.len() - row,
    {
        let values = valuation_of(row as u64, width);
        let holds = eval(&result, values);
        if holds != (table[row] != 0) {
            proof {
                let a = row as int;
                if holds {
                    let b = choose|b: int| 0 <= b < t.len() && t[b] == 1 && row_valuation(a, n) == #[trigger] row_valuation(b, n);
                    lemma_row_valuation_injective(a, b, n);
                } else {
                    assert(rows_models(t, n, t.len() as int).contains(row_valuation(a, n)));
                }
            }
            return Err(BddExperimentError::SemanticMismatch { assignment: row });
        }
        row += 1;
    }
    Ok(
        BddExperimentReport {
            input_bits,
            exhaustive_rows: table.len(),
            satisfying_rows,
            final_nodes: size(&result),
            result_node_limit: limits.max_result_nodes,
            apply_pair_limit: limits.max_apply_pairs,
        },
    )
}

} // verus!
