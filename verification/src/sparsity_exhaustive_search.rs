//! Bounded exhaustive enumeration of Boolean sparsity rules.
//!
//! Every scalar Boolean function of a small predicate arity is proposed, in
//! the integer order of its truth-table code. This is a search-phase proposal
//! generator only: nothing here evaluates, screens or selects.

use vstd::prelude::*;
use vstd::arithmetic::power2::{pow2, lemma2_to64};
use crate::bitwise::{bit, bit_weight, lemma_shr_is_div};
use crate::function::{BooleanFunction, FunctionError, valid_truth_table};
use crate::spectral::row_weight;
use crate::text::{push_text, push_decimal, push_hex, decimal_text, hex_text};

verus! {

/// Largest predicate arity admitted by exact exhaustive enumeration.
///
/// Four inputs already give `2^(2^4) = 65_536` functions; five would give `2^32`.
pub const MAX_EXHAUSTIVE_SPARSITY_RULE_BITS: u32 = 4;

/// One exact function proposed by exhaustive enumeration.
#[derive(Debug, PartialEq, Eq)]
pub struct ExhaustiveRuleProposal {
    /// Stable identifier; identity is still the exact truth table.
    pub proposal_id: String,
    /// Complete truth table.
    pub function: BooleanFunction,
    /// Integer whose bit `row` is the output for that row.
    pub truth_table_code: u64,
    /// Number of rows that evaluate to one.
    pub output_ones: u32,
}

impl Clone for ExhaustiveRuleProposal {
    fn clone(&self) -> (copy: Self)
        ensures
            copy.proposal_id == self.proposal_id,
            copy.function.input_width() == self.function.input_width(),
            copy.function.table() == self.function.table(),
            copy.truth_table_code == self.truth_table_code,
            copy.output_ones == self.output_ones,
    {
        ExhaustiveRuleProposal {
            proposal_id: self.proposal_id.clone(),
            function: self.function.clone(),
            truth_table_code: self.truth_table_code,
            output_ones: self.output_ones,
        }
    }
}

/// Fail-closed errors of exhaustive proposal generation.
#[derive(Clone, Debug, PartialEq, Eq)]
pub enum ExhaustiveRuleSearchError {
    ZeroInputs,
    InputWidthTooLarge { requested: u32, maximum: u32 },
    PopulationTooLarge { function_count: u64 },
    Function(FunctionError),
}

/// The truth table with code `code` over `n` inputs: row `r` is bit `r` of `code`.
pub open spec fn code_table(n: nat, code: nat) -> Seq<u8> {
    Seq::new(pow2(n), |r: int| if bit(code as int, r as nat) { 1u8 } else { 0u8 })
}

/// The identifier of the proposal with code `code` over `n` inputs.
pub open spec fn exhaustive_label(n: nat, code: nat) -> Seq<char> {
    "bl14-exhaustive-n"@ + decimal_text(n, 0) + "-"@ + hex_text(code, 16)
}

/// `p` is the exhaustive proposal of code `code` over `n` inputs.
pub open spec fn is_code_proposal(p: ExhaustiveRuleProposal, n: nat, code: nat) -> bool {
    &&& p.truth_table_code == code
    &&& p.function.input_width() == n
    &&& p.function.table() == code_table(n, code)
    &&& p.output_ones == bit_weight(code as int, pow2(n))
    &&& p.proposal_id@ == exhaustive_label(n, code)
}

/// The complete list of proposals over `n` inputs, in code order.
pub open spec fn is_exhaustive_population(v: Seq<ExhaustiveRuleProposal>, n: nat) -> bool {
    &&& v.len() == pow2(pow2(n))
    &&& forall|code: int| 0 <= code < v.len() ==> #[trigger] is_code_proposal(v[code], n, code as nat)
}

/// Builds the proposal with truth-table code `code` over `input_bits` inputs.
fn code_proposal(input_bits: u32, rows: u32, code: u64) -> (result: Result<ExhaustiveRuleProposal, FunctionError>)
    requires
        1 <= input_bits <= MAX_EXHAUSTIVE_SPARSITY_RULE_BITS,
        rows == pow2(input_bits as nat),
    ensures
        result matches Ok(proposal) && is_code_proposal(proposal, input_bits as nat, code as nat),
{
    proof {
        lemma2_to64();
    }
    let mut table: Vec<u8> = Vec::new();
    let mut row: u32 = 0;
    while row < rows
        invariant
            rows == pow2(input_bits as nat),
            rows <= 16,
            row <= rows,
            table@.len() == row,
            forall|r: int| 0 <= r < row ==> #[trigger] table@[r] == code_table(input_bits as nat, code as nat)[r],
        decreases rows - row,
    {
        proof {
            vstd::bits::lemma_u64_shr_is_div(code, row as u64);
            lemma_shr_is_div(code as int, row as nat);
        }
        if (code >> (row as u64)) % 2 == 1 {
            table.push(1);
        } else {
            table.push(0);
        }
        row += 1;
    }
    proof {
        assert(table@ =~= code_table(input_bits as nat, code as nat));
        assert(forall|i: int| 0 <= i < table@.len() ==> #[trigger] table@[i] <= 1);
    }
    let function = match BooleanFunction::new(input_bits, table) {
        Ok(function) => function,
        Err(e) => {
            return Err(e);
        },
    };
    let output_ones = row_weight(code, rows);
    let mut proposal_id = String::new();
    push_text(&mut proposal_id, "bl14-exhaustive-n");
    push_decimal(&mut proposal_id, input_bits as u64, 0);
    push_text(&mut proposal_id, "-");
    push_hex(&mut proposal_id, code, 16);
    Ok(ExhaustiveRuleProposal { proposal_id, function, truth_table_code: code, output_ones })
}

/// Enumerates every scalar Boolean function of `input_bits` inputs.
///
/// Row zero is the least-significant bit of the truth-table code, and the
/// proposals come in code order from zero to `2^(2^n) - 1`.
///
/// # Errors
///
/// [`ExhaustiveRuleSearchError::ZeroInputs`] for zero inputs and
/// [`ExhaustiveRuleSearchError::InputWidthTooLarge`] above
/// [`MAX_EXHAUSTIVE_SPARSITY_RULE_BITS`].
pub fn propose_exhaustive_rules(input_bits: u32) -> (result: Result<
    Vec<ExhaustiveRuleProposal>,
    ExhaustiveRuleSearchError,
>)
    ensures
        input_bits == 0 ==> result == Err::<Vec<ExhaustiveRuleProposal>, ExhaustiveRuleSearchError>(
            ExhaustiveRuleSearchError::ZeroInputs,
        ),
        input_bits > MAX_EXHAUSTIVE_SPARSITY_RULE_BITS ==> result == Err::<
            Vec<ExhaustiveRuleProposal>,
            ExhaustiveRuleSearchError,
        >(
            ExhaustiveRuleSearchError::InputWidthTooLarge {
                requested: input_bits,
                maximum: MAX_EXHAUSTIVE_SPARSITY_RULE_BITS,
            },
        ),
        1 <= input_bits <= MAX_EXHAUSTIVE_SPARSITY_RULE_BITS ==> (result matches Ok(proposals)
            && is_exhaustive_population(proposals@, input_bits as nat)),
{
    if input_bits == 0 {
        return Err(ExhaustiveRuleSearchError::ZeroInputs);
    }
    if input_bits > MAX_EXHAUSTIVE_SPARSITY_RULE_BITS {
        return Err(
            ExhaustiveRuleSearchError::InputWidthTooLarge {
                requested: input_bits,
                maximum: MAX_EXHAUSTIVE_SPARSITY_RULE_BITS,
            },
        );
    }
    proof {
        lemma2_to64();
        vstd::bits::lemma_u32_shl_is_mul(1, input_bits);
    }
    let rows = 1u32 << input_bits;
    proof {
        vstd::bits::lemma_u64_shl_is_mul(1, rows as u64);
    }
    let function_count = 1u64 << (rows as u64);
    let mut proposals: Vec<ExhaustiveRuleProposal> = Vec::new();
    let mut code: u64 = 0;
    while code < function_count
        invariant
            1 <= input_bits <= MAX_EXHAUSTIVE_SPARSITY_RULE_BITS,
            rows == pow2(input_bits as nat),
            function_count == pow2(rows as nat),
            code <= function_count,
            proposals@.len() == code,
            forall|c: int| 0 <= c < code ==> #[trigger] is_code_proposal(proposals@[c], input_bits as nat, c as nat),
        decreases function_count - code,
    {
        match code_proposal(input_bits, rows, code) {
            Ok(proposal) => {
                proposals.push(proposal);
            },
            Err(e) => {
                return Err(ExhaustiveRuleSearchError::Function(e));
            },
        }
        code += 1;
    }
    Ok(proposals)
}

} // verus!
