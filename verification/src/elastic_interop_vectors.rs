//! Versioned exact small-domain Boolean vectors for cross-repository consumers.
//!
//! The vectors are three-input Boolean functions written in a bounded
//! reverse-Polish grammar (`true`, `false`, `not`, `and`, `or`, `xor`,
//! `implies` and predicates `p<i>`), evaluated exhaustively into exact truth
//! tables. This module grants no validation or actuation authority.

use vstd::prelude::*;
use vstd::string::StringExecFns;
use vstd::string::StrSliceExecFns;
use vstd::arithmetic::power2::pow2;
use crate::function::{BooleanFunction, FunctionError, metrics_of, function_fingerprint, copy_bytes};
use crate::sparsity_rule_evidence::{is_white_space, white_space};
use crate::text::{push_text, push_decimal, push_hex, decimal_text, hex_text};

verus! {

/// Current schema of the emitted TSV fixture.
pub const ELASTIC_INTEROP_VECTOR_SCHEMA_V1: u16 = 1;

/// Number of input bits of the first interop fixture family.
pub const ELASTIC_INTEROP_INPUT_BITS_V1: u32 = 3;

/// Maximum RPN tokens accepted by the bounded exact fixture evaluator.
pub const MAX_INTEROP_EXPRESSION_TOKENS: usize = 32;

/// Number of fixture cases.
pub const ELASTIC_INTEROP_CASES_V1: usize = 7;

/// Exact whole-function logical classification.
#[derive(Clone, Copy, Debug, PartialEq, Eq, Structural)]
pub enum ElasticInteropLogicalClassV1 {
    Contradiction,
    Contingent,
    Tautology,
}

impl ElasticInteropLogicalClassV1 {
    /// Some assignment satisfies the function.
    pub fn satisfiable(self) -> (result: bool)
        ensures
            result == !(self is Contradiction),
    {
        !matches!(self, Self::Contradiction)
    }

    /// Every assignment satisfies the function.
    pub fn tautology(self) -> (result: bool)
        ensures
            result == (self is Tautology),
    {
        matches!(self, Self::Tautology)
    }

    /// No assignment satisfies the function.
    pub fn contradiction(self) -> (result: bool)
        ensures
            result == (self is Contradiction),
    {
        matches!(self, Self::Contradiction)
    }
}

/// A function is never both a tautology and a contradiction, and it is
/// satisfiable exactly when it is not a contradiction.
pub proof fn lemma_logical_class_exclusive(class: ElasticInteropLogicalClassV1)
    ensures
        !(class is Tautology && class is Contradiction),
        !(class is Contradiction) != (class is Contradiction),
{
}

/// A nonempty table is classified by whether all rows are one, all are zero, or neither.
pub proof fn lemma_logical_class_of(t: Seq<u8>)
    requires
        t.len() > 0,
    ensures
        logical_class_of(t) is Tautology <==> forall|x: int| 0 <= x < t.len() ==> #[trigger] t[x] == 1,
        logical_class_of(t) is Contradiction <==> forall|x: int| 0 <= x < t.len() ==> #[trigger] t[x] == 0,
{
    if forall|x: int| 0 <= x < t.len() ==> #[trigger] t[x] == 1 {
        assert(t[0] == 1);
    }
}

/// One exact versioned vector row.
#[derive(Clone, Debug, PartialEq, Eq)]
pub struct ElasticInteropVectorV1 {
    pub case_id: &'static str,
    pub shape_class: &'static str,
    pub input_bits: u32,
    pub expression_rpn: &'static str,
    pub truth_table: Vec<u8>,
    pub algebraic_degree: u32,
    pub nonlinearity: u64,
    pub balanced: bool,
    pub correlation_immunity: u32,
    pub logical_class: ElasticInteropLogicalClassV1,
    pub booleanlab_fingerprint: u64,
}

/// Errors in the bounded cross-repository fixture grammar.
#[derive(Clone, Debug, PartialEq, Eq)]
pub enum ElasticInteropVectorError {
    TooManyTokens { maximum: usize },
    UnknownToken(String),
    PredicateOutOfRange { predicate: u32, input_bits: u32 },
    StackUnderflow { token: String },
    InvalidFinalStackDepth { depth: usize },
    Function(FunctionError),
    Formatting,
}

impl From<FunctionError> for ElasticInteropVectorError {
    fn from(value: FunctionError) -> (error: Self) {
        Self::Function(value)
    }
}

impl vstd::std_specs::convert::FromSpecImpl<FunctionError> for ElasticInteropVectorError {
    open spec fn obeys_from_spec() -> bool {
        true
    }

    open spec fn from_spec(value: FunctionError) -> Self {
        Self::Function(value)
    }
}

/// Kinds of RPN failure, as the contracts speak of them.
pub enum RpnFailureKind {
    TooManyTokens,
    UnknownToken,
    PredicateOutOfRange,
    StackUnderflow,
    InvalidFinalStackDepth,
}

/// An RPN outcome: a value, or a failure kind with its token text and number.
pub type RpnOutcome = Result<bool, (RpnFailureKind, Seq<char>, int)>;

/// Maximal runs of non-white-space characters of `s`, in order.
pub open spec fn split_tokens(s: Seq<char>) -> Seq<Seq<char>>
    decreases s.len(),
{
    if s.len() == 0 {
        seq![]
    } else {
        let previous = split_tokens(s.drop_last());
        let c = s.last();
        if is_white_space(c) {
            previous
        } else if s.len() >= 2 && !is_white_space(s[s.len() - 2]) {
            previous.drop_last().push(previous.last().push(c))
        } else {
            previous.push(seq![c])
        }
    }
}

/// An ASCII decimal digit.
pub open spec fn is_ascii_digit(c: char) -> bool {
    '0' <= c && c <= '9'
}

/// Value of the ASCII decimal numeral `t`.
pub open spec fn decimal_value(t: Seq<char>) -> nat
    decreases t.len(),
{
    if t.len() == 0 {
        0
    } else {
        decimal_value(t.drop_last()) * 10 + ((t.last() as u32) - ('0' as u32)) as nat
    }
}

/// `u32` parsing of `t`: an optional `+`, then at least one ASCII digit, with
/// the value within `u32`.
pub open spec fn parse_u32_text(t: Seq<char>) -> Option<u32> {
    let d = unsigned_digits(t);
    if d.len() > 0 && all_ascii_digits(d) && decimal_value(d) <= u32::MAX {
        Some(decimal_value(d) as u32)
    } else {
        None
    }
}

/// `t` without one leading `+`.
pub open spec fn unsigned_digits(t: Seq<char>) -> Seq<char> {
    if t.len() > 0 && t[0] == '+' {
        t.drop_first()
    } else {
        t
    }
}

/// Every character of `d` is an ASCII digit.
pub open spec fn all_ascii_digits(d: Seq<char>) -> bool {
    forall|i: int| 0 <= i < d.len() ==> #[trigger] is_ascii_digit(d[i])
}

/// Value of predicate `p<index>` under `assignment`.
pub open spec fn predicate_bit(assignment: u64, index: u32) -> bool {
    (assignment >> index) & 1 != 0
}

/// Runs tokens `i..` on `stack`.
pub open spec fn rpn_run(tokens: Seq<Seq<char>>, input_bits: u32, assignment: u64, i: nat, stack: Seq<bool>) -> RpnOutcome
    decreases tokens.len() - i,
{
    if i >= tokens.len() {
        if stack.len() != 1 {
            Err((RpnFailureKind::InvalidFinalStackDepth, seq![], stack.len() as int))
        } else {
            Ok(stack[0])
        }
    } else {
        let t = tokens[i as int];
        if t == "true"@ {
            rpn_run(tokens, input_bits, assignment, i + 1, stack.push(true))
        } else if t == "false"@ {
            rpn_run(tokens, input_bits, assignment, i + 1, stack.push(false))
        } else if t == "not"@ {
            if stack.len() == 0 {
                Err((RpnFailureKind::StackUnderflow, t, 0))
            } else {
                rpn_run(tokens, input_bits, assignment, i + 1, stack.drop_last().push(!stack.last()))
            }
        } else if t == "and"@ || t == "or"@ || t == "xor"@ || t == "implies"@ {
            if stack.len() < 2 {
                Err((RpnFailureKind::StackUnderflow, t, 0))
            } else {
                let rhs = stack.last();
                let lhs = stack.drop_last().last();
                let value = if t == "and"@ {
                    lhs && rhs
                } else if t == "or"@ {
                    lhs || rhs
                } else if t == "xor"@ {
                    lhs != rhs
                } else {
                    !lhs || rhs
                };
                rpn_run(tokens, input_bits, assignment, i + 1, stack.drop_last().drop_last().push(value))
            }
        } else if t.len() > 0 && t[0] == 'p' {
            match parse_u32_text(t.drop_first()) {
                None => Err((RpnFailureKind::UnknownToken, t, 0)),
                Some(index) => if index >= input_bits || index >= 64 {
                    Err((RpnFailureKind::PredicateOutOfRange, seq![], index as int))
                } else {
                    rpn_run(tokens, input_bits, assignment, i + 1, stack.push(predicate_bit(assignment, index)))
                },
            }
        } else {
            Err((RpnFailureKind::UnknownToken, t, 0))
        }
    }
}

/// Every binary connective replaces the two topmost values, `lhs` below
/// `rhs`, by its result and evaluation goes on with the next token: `and`
/// pushes `lhs && rhs`, `or` pushes `lhs || rhs`, `xor` pushes whether they
/// differ and `implies` pushes `!lhs || rhs`; `not` replaces the top value by
/// its negation.
pub proof fn lemma_rpn_connectives(
    tokens: Seq<Seq<char>>,
    input_bits: u32,
    assignment: u64,
    i: nat,
    stack: Seq<bool>,
)
    requires
        i < tokens.len(),
        stack.len() >= 2,
    ensures
        ({
            let lhs = stack[stack.len() - 2];
            let rhs = stack[stack.len() - 1];
            let below = stack.drop_last().drop_last();
            let next = |v: bool| rpn_run(tokens, input_bits, assignment, i + 1, below.push(v));
            let here = rpn_run(tokens, input_bits, assignment, i, stack);
            &&& tokens[i as int] == "and"@ ==> here == next(lhs && rhs)
            &&& tokens[i as int] == "or"@ ==> here == next(lhs || rhs)
            &&& tokens[i as int] == "xor"@ ==> here == next((lhs && !rhs) || (!lhs && rhs))
            &&& tokens[i as int] == "implies"@ ==> here == next(!lhs || rhs)
            &&& tokens[i as int] == "not"@ ==> here == rpn_run(
                tokens,
                input_bits,
                assignment,
                i + 1,
                stack.drop_last().push(!rhs),
            )
        }),
{
    reveal_strlit("true");
    reveal_strlit("false");
    reveal_strlit("not");
    reveal_strlit("and");
    reveal_strlit("or");
    reveal_strlit("xor");
    reveal_strlit("implies");
    assert(stack.drop_last().last() == stack[stack.len() - 2]);
    assert(stack.last() == stack[stack.len() - 1]);
    // The seven keywords start with seven different letters.
    assert("true"@[0] == 't' && "false"@[0] == 'f' && "not"@[0] == 'n' && "and"@[0] == 'a' && "or"@[0] == 'o'
        && "xor"@[0] == 'x' && "implies"@[0] == 'i');
}

/// Each predicate token `p<k>` with `k` below the width pushes bit `k` of
/// the assignment.
pub proof fn lemma_rpn_predicate_reads_bit(
    tokens: Seq<Seq<char>>,
    input_bits: u32,
    assignment: u64,
    i: nat,
    stack: Seq<bool>,
    k: u32,
)
    requires
        i < tokens.len(),
        tokens[i as int].len() > 0,
        tokens[i as int][0] == 'p',
        parse_u32_text(tokens[i as int].drop_first()) == Some(k),
        k < input_bits,
        k < 64,
    ensures
        rpn_run(tokens, input_bits, assignment, i, stack) == rpn_run(
            tokens,
            input_bits,
            assignment,
            i + 1,
            stack.push((assignment as nat / pow2(k as nat)) % 2 == 1),
        ),
{
    reveal_strlit("true");
    reveal_strlit("false");
    reveal_strlit("not");
    reveal_strlit("and");
    reveal_strlit("or");
    reveal_strlit("xor");
    reveal_strlit("implies");
    let t = tokens[i as int];
    assert(t != "true"@ && t != "false"@ && t != "not"@ && t != "and"@ && t != "or"@ && t != "xor"@ && t
        != "implies"@) by {
        assert("true"@[0] != 'p');
        assert("false"@[0] != 'p');
        assert("not"@[0] != 'p');
        assert("and"@[0] != 'p');
        assert("or"@[0] != 'p');
        assert("xor"@[0] != 'p');
        assert("implies"@[0] != 'p');
    }
    vstd::bits::lemma_u64_shr_is_div(assignment, k as u64);
    let y = assignment >> k;
    assert(y & 1 == y % 2) by (bit_vector);
    assert((assignment >> k) == (assignment >> (k as u64))) by (bit_vector);
}

/// Outcome of evaluating the RPN expression `s` at `assignment`.
pub open spec fn rpn_outcome(s: Seq<char>, input_bits: u32, assignment: u64) -> RpnOutcome {
    let tokens = split_tokens(s);
    if tokens.len() > MAX_INTEROP_EXPRESSION_TOKENS {
        Err((RpnFailureKind::TooManyTokens, seq![], MAX_INTEROP_EXPRESSION_TOKENS as int))
    } else {
        rpn_run(tokens, input_bits, assignment, 0, seq![])
    }
}

/// `result` is the executable form of the outcome `o` for width `input_bits`.
pub open spec fn matches_outcome(result: Result<bool, ElasticInteropVectorError>, o: RpnOutcome, input_bits: u32) -> bool {
    match o {
        Ok(v) => result == Ok::<bool, ElasticInteropVectorError>(v),
        Err((kind, text, number)) => match result {
            Ok(_) => false,
            Err(e) => match kind {
                RpnFailureKind::TooManyTokens => e == ElasticInteropVectorError::TooManyTokens {
                    maximum: number as usize,
                },
                RpnFailureKind::UnknownToken => e matches ElasticInteropVectorError::UnknownToken(token) && token@
                    == text,
                RpnFailureKind::PredicateOutOfRange => e == ElasticInteropVectorError::PredicateOutOfRange {
                    predicate: number as u32,
                    input_bits,
                },
                RpnFailureKind::StackUnderflow => e matches ElasticInteropVectorError::StackUnderflow { token }
                    && token@ == text,
                RpnFailureKind::InvalidFinalStackDepth => e == ElasticInteropVectorError::InvalidFinalStackDepth {
                    depth: number as usize,
                },
            },
        },
    }
}


/// Whether two strings hold the same characters.
fn str_equals(a: &str, b: &str) -> (same: bool)
    ensures
        same == (a@ == b@),
{
    let n = a.unicode_len();
    if n != b.unicode_len() {
        return false;
    }
    let mut i: usize = 0;
    while i < n
        invariant
            n == a@.len(),
            n == b@.len(),
            i <= n,
            forall|j: int| 0 <= j < i ==> a@[j] == b@[j],
        decreases n - i,
    {
        if a.get_char(i) != b.get_char(i) {
            return false;
        }
        i += 1;
    }
    proof {
        assert(a@ =~= b@);
    }
    true
}

/// The texts of `spans` in `s`.
pub open spec fn span_texts(s: Seq<char>, spans: Seq<(usize, usize)>) -> Seq<Seq<char>> {
    spans.map_values(|span: (usize, usize)| s.subrange(span.0 as int, span.1 as int))
}

/// Character spans of the white-space separated tokens of `s`.
fn token_spans(s: &str) -> (spans: Vec<(usize, usize)>)
    ensures
        span_texts(s@, spans@) == split_tokens(s@),
        forall|k: int| 0 <= k < spans@.len() ==> #[trigger] spans@[k].0 < spans@[k].1 <= s@.len(),
{
    let n = s.unicode_len();
    let mut spans: Vec<(usize, usize)> = Vec::new();
    let mut start: Option<usize> = None;
    let mut i: usize = 0;
    while i < n
        invariant
            n == s@.len(),
            i <= n,
            forall|k: int| 0 <= k < spans@.len() ==> #[trigger] spans@[k].0 < spans@[k].1 <= i,
            start is Some <==> (i > 0 && !is_white_space(s@[i - 1])),
            start matches Some(st) ==> st < i && span_texts(s@, spans@).push(s@.subrange(st as int, i as int))
                == split_tokens(s@.take(i as int)),
            start is None ==> span_texts(s@, spans@) == split_tokens(s@.take(i as int)),
            start matches Some(st) ==> forall|k: int| 0 <= k < spans@.len() ==> #[trigger] spans@[k].1 <= st,
        decreases n - i,
    {
        let c = s.get_char(i);
        let ghost before = spans@;
        proof {
            assert(s@.take(i + 1).drop_last() =~= s@.take(i as int));
            assert(s@.take(i + 1).last() == c);
            if i > 0 {
                assert(s@.take(i + 1)[i - 1] == s@[i - 1]);
            }
        }
        if white_space(c) {
            match start {
                Some(st) => {
                    spans.push((st, i));
                    proof {
                        assert(span_texts(s@, spans@) =~= span_texts(s@, before).push(s@.subrange(st as int, i as int)));
                    }
                },
                None => {},
            }
            start = None;
        } else {
            match start {
                Some(st) => {
                    proof {
                        let previous = split_tokens(s@.take(i as int));
                        assert(previous.drop_last() =~= span_texts(s@, spans@));
                        assert(previous.last() == s@.subrange(st as int, i as int));
                        assert(s@.subrange(st as int, i + 1) =~= s@.subrange(st as int, i as int).push(c));
                    }
                },
                None => {
                    proof {
                        assert(s@.subrange(i as int, i + 1) =~= seq![c]);
                        assert forall|k: int| 0 <= k < spans@.len() implies #[trigger] spans@[k].1 <= i by {
                            assert(spans@[k].0 < spans@[k].1 <= i);
                        }
                    }
                    start = Some(i);
                },
            }
        }
        proof {
            assert forall|k: int| 0 <= k < spans@.len() implies #[trigger] spans@[k].0 < spans@[k].1 <= i + 1 by {
                if k < before.len() {
                    assert(spans@[k] == before[k]);
                    assert(before[k].0 < before[k].1 <= i);
                }
            }
        }
        i += 1;
    }
    match start {
        Some(st) => {
            let ghost before = spans@;
            spans.push((st, n));
            proof {
                assert(span_texts(s@, spans@) =~= span_texts(s@, before).push(s@.subrange(st as int, n as int)));
                assert forall|k: int| 0 <= k < spans@.len() implies #[trigger] spans@[k].0 < spans@[k].1 <= s@.len() by {
                    if k < before.len() {
                        assert(spans@[k] == before[k]);
                        assert(before[k].0 < before[k].1 <= n);
                    }
                }
            }
        },
        None => {},
    }
    proof {
        assert(s@.take(n as int) =~= s@);
    }
    spans
}


/// A prefix of an all-digit numeral has no larger value.
proof fn lemma_decimal_prefix(d: Seq<char>, k: int)
    requires
        0 <= k <= d.len(),
        forall|i: int| 0 <= i < d.len() ==> #[trigger] is_ascii_digit(d[i]),
    ensures
        decimal_value(d.take(k)) <= decimal_value(d),
    decreases d.len(),
{
    if k < d.len() {
        let rest = d.drop_last();
        assert(d.take(k) =~= rest.take(k));
        lemma_decimal_prefix(rest, k);
        assert(is_ascii_digit(d.last()));
    } else {
        assert(d.take(k) =~= d);
    }
}

/// `u32` parsing of `text`: an optional `+`, then ASCII digits, within `u32`.
pub fn parse_u32(text: &str) -> (parsed: Option<u32>)
    ensures
        parsed == parse_u32_text(text@),
{
    let n = text.unicode_len();
    let mut i: usize = 0;
    if n > 0 && text.get_char(0) == '+' {
        i = 1;
    }
    let start = i;
    let ghost d = text@.subrange(start as int, n as int);
    proof {
        if n > 0 && text@[0] == '+' {
            assert(d =~= text@.drop_first());
        } else {
            assert(d =~= text@);
        }
    }
    if i == n {
        return None;
    }
    let mut value: u64 = 0;
    while i < n
        invariant
            n == text@.len(),
            start <= i <= n,
            start < n,
            d == text@.subrange(start as int, n as int),
            d == unsigned_digits(text@),
            forall|j: int| 0 <= j < i - start ==> #[trigger] is_ascii_digit(d[j]),
            value == decimal_value(d.take(i - start)),
            value <= u32::MAX,
        decreases n - i,
    {
        let c = text.get_char(i);
        proof {
            assert(d[i - start] == c);
        }
        if !('0' <= c && c <= '9') {
            proof {
                assert(!is_ascii_digit(d[i - start]));
                assert(!all_ascii_digits(d));
            }
            return None;
        }
        let digit = (c as u64) - ('0' as u64);
        proof {
            assert(d.take(i - start + 1).drop_last() =~= d.take(i - start));
            assert(d.take(i - start + 1).last() == c);
        }
        value = value * 10 + digit;
        proof {
            assert(decimal_value(d.take(i - start + 1)) == decimal_value(d.take(i - start)) * 10 + digit);
        }
        if value > 0xffff_ffff {
            proof {
                if all_ascii_digits(d) {
                    lemma_decimal_prefix(d, i - start + 1);
                }
            }
            return None;
        }
        i += 1;
    }
    proof {
        assert(d.take(n - start) =~= d);
    }
    Some(value as u32)
}

/// Evaluates a bounded RPN expression at one packed assignment; predicate
/// `p<i>` reads bit `i` of `assignment`.
///
/// # Errors
///
/// [`ElasticInteropVectorError::TooManyTokens`] above
/// [`MAX_INTEROP_EXPRESSION_TOKENS`] tokens; then, at the first failing token,
/// [`ElasticInteropVectorError::StackUnderflow`],
/// [`ElasticInteropVectorError::UnknownToken`] or
/// [`ElasticInteropVectorError::PredicateOutOfRange`] (a predicate index at
/// or beyond `input_bits`, or beyond the 64 bits of `assignment`); and
/// [`ElasticInteropVectorError::InvalidFinalStackDepth`] unless exactly one
/// value remains.
pub fn evaluate_rpn(expression: &str, input_bits: u32, assignment: u64) -> (result: Result<bool, ElasticInteropVectorError>)
    ensures
        matches_outcome(result, rpn_outcome(expression@, input_bits, assignment), input_bits),
{
    let spans = token_spans(expression);
    let ghost tokens = split_tokens(expression@);
    if spans.len() > MAX_INTEROP_EXPRESSION_TOKENS {
        return Err(ElasticInteropVectorError::TooManyTokens { maximum: MAX_INTEROP_EXPRESSION_TOKENS });
    }
    let mut stack: Vec<bool> = Vec::new();
    let mut i: usize = 0;
    while i < spans.len()
        invariant
            tokens == split_tokens(expression@),
            span_texts(expression@, spans@) == tokens,
            forall|k: int| 0 <= k < spans@.len() ==> #[trigger] spans@[k].0 < spans@[k].1 <= expression@.len(),
            tokens.len() <= MAX_INTEROP_EXPRESSION_TOKENS,
            i <= spans@.len(),
            rpn_outcome(expression@, input_bits, assignment) == rpn_run(tokens, input_bits, assignment, i as nat, stack@),
        decreases spans@.len() - i,
    {
        let (start, end) = spans[i];
        let token = expression.substring_char(start, end);
        let ghost t = tokens[i as int];
        proof {
            assert(span_texts(expression@, spans@)[i as int] == expression@.subrange(start as int, end as int));
            assert(token@ == t);
        }
        if str_equals(token, "true") {
            stack.push(true);
        } else if str_equals(token, "false") {
            stack.push(false);
        } else if str_equals(token, "not") {
            match stack.pop() {
                None => return Err(ElasticInteropVectorError::StackUnderflow { token: String::from_str(token) }),
                Some(value) => {
                    stack.push(!value);
                },
            }
        } else {
            let is_and = str_equals(token, "and");
            let is_or = str_equals(token, "or");
            let is_xor = str_equals(token, "xor");
            let is_implies = str_equals(token, "implies");
            if is_and || is_or || is_xor || is_implies {
                let ghost before = stack@;
                let rhs = match stack.pop() {
                    None => return Err(ElasticInteropVectorError::StackUnderflow { token: String::from_str(token) }),
                    Some(value) => value,
                };
                let lhs = match stack.pop() {
                    None => return Err(ElasticInteropVectorError::StackUnderflow { token: String::from_str(token) }),
                    Some(value) => value,
                };
                let value = if is_and {
                    lhs && rhs
                } else if is_or {
                    lhs || rhs
                } else if is_xor {
                    lhs != rhs
                } else {
                    !lhs || rhs
                };
                stack.push(value);
                proof {
                    assert(stack@ =~= before.drop_last().drop_last().push(value));
                }
            } else {
                let length = token.unicode_len();
                if length > 0 && token.get_char(0) == 'p' {
                    let rest = token.substring_char(1, length);
                    proof {
                        assert(rest@ =~= t.drop_first());
                    }
                    match parse_u32(rest) {
                        None => return Err(ElasticInteropVectorError::UnknownToken(String::from_str(token))),
                        Some(index) => {
                            if index >= input_bits || index >= 64 {
                                return Err(ElasticInteropVectorError::PredicateOutOfRange { predicate: index, input_bits });
                            }
                            stack.push((assignment >> index) & 1 != 0);
                        },
                    }
                } else {
                    return Err(ElasticInteropVectorError::UnknownToken(String::from_str(token)));
                }
            }
        }
        i += 1;
    }
    if stack.len() != 1 {
        return Err(ElasticInteropVectorError::InvalidFinalStackDepth { depth: stack.len() });
    }
    Ok(stack[0])
}


/// Case `i` of the fixture: its identifier, shape class and RPN expression.
pub open spec fn case_fields(i: int) -> (Seq<char>, Seq<char>, Seq<char>) {
    if i == 0 {
        ("conjunction-with-negation"@, "conjunction"@, "p0 p1 not and p2 and"@)
    } else if i == 1 {
        ("disjunction-with-negation"@, "disjunction"@, "p0 p1 not or p2 or"@)
    } else if i == 2 {
        ("xor-two-inputs"@, "general"@, "p0 p1 xor"@)
    } else if i == 3 {
        ("implication"@, "general"@, "p0 p1 implies"@)
    } else if i == 4 {
        ("tautology"@, "tautology"@, "p0 p0 not or"@)
    } else if i == 5 {
        ("contradiction"@, "contradiction"@, "p0 p0 not and"@)
    } else {
        ("nested-xor-implies"@, "general"@, "p0 p1 xor p2 implies"@)
    }
}

/// Case `i` of the fixture, in stable order.
fn case_v1(i: usize) -> (fields: (&'static str, &'static str, &'static str))
    requires
        i < ELASTIC_INTEROP_CASES_V1,
    ensures
        fields.0@ == case_fields(i as int).0,
        fields.1@ == case_fields(i as int).1,
        fields.2@ == case_fields(i as int).2,
{
    if i == 0 {
        ("conjunction-with-negation", "conjunction", "p0 p1 not and p2 and")
    } else if i == 1 {
        ("disjunction-with-negation", "disjunction", "p0 p1 not or p2 or")
    } else if i == 2 {
        ("xor-two-inputs", "general", "p0 p1 xor")
    } else if i == 3 {
        ("implication", "general", "p0 p1 implies")
    } else if i == 4 {
        ("tautology", "tautology", "p0 p0 not or")
    } else if i == 5 {
        ("contradiction", "contradiction", "p0 p0 not and")
    } else {
        ("nested-xor-implies", "general", "p0 p1 xor p2 implies")
    }
}

/// The RPN expression `e` evaluates at every three-input assignment.
pub open spec fn rpn_total(e: Seq<char>) -> bool {
    forall|a: int| 0 <= a < 8 ==> #[trigger] rpn_outcome(e, ELASTIC_INTEROP_INPUT_BITS_V1, a as u64) is Ok
}

/// `a` is the first three-input assignment at which `e` fails.
pub open spec fn first_failing_assignment(e: Seq<char>, a: int) -> bool {
    &&& 0 <= a < 8
    &&& !(rpn_outcome(e, ELASTIC_INTEROP_INPUT_BITS_V1, a as u64) is Ok)
    &&& forall|b: int| 0 <= b < a ==> #[trigger] rpn_outcome(e, ELASTIC_INTEROP_INPUT_BITS_V1, b as u64) is Ok
}

/// Truth table of `e`: row `a` is its value at assignment `a`.
pub open spec fn rpn_table(e: Seq<char>) -> Seq<u8> {
    Seq::new(
        8,
        |a: int|
            match rpn_outcome(e, ELASTIC_INTEROP_INPUT_BITS_V1, a as u64) {
                Ok(true) => 1u8,
                _ => 0u8,
            },
    )
}

/// Tautology when every row is one, contradiction when every row is zero.
pub open spec fn logical_class_of(t: Seq<u8>) -> ElasticInteropLogicalClassV1 {
    if forall|x: int| 0 <= x < t.len() ==> #[trigger] t[x] == 1 {
        ElasticInteropLogicalClassV1::Tautology
    } else if forall|x: int| 0 <= x < t.len() ==> #[trigger] t[x] == 0 {
        ElasticInteropLogicalClassV1::Contradiction
    } else {
        ElasticInteropLogicalClassV1::Contingent
    }
}

/// `v` is the exact vector of identifier `id`, shape `shape` and expression `e`.
pub open spec fn is_exact_vector(v: ElasticInteropVectorV1, id: Seq<char>, shape: Seq<char>, e: Seq<char>) -> bool {
    let t = rpn_table(e);
    let m = metrics_of(ELASTIC_INTEROP_INPUT_BITS_V1 as nat, t);
    &&& v.case_id@ == id
    &&& v.shape_class@ == shape
    &&& v.input_bits == ELASTIC_INTEROP_INPUT_BITS_V1
    &&& v.expression_rpn@ == e
    &&& v.truth_table@ == t
    &&& v.algebraic_degree == m.algebraic_degree
    &&& v.nonlinearity == m.nonlinearity
    &&& v.balanced == m.balanced
    &&& v.correlation_immunity == m.correlation_immunity
    &&& v.logical_class == logical_class_of(t)
    &&& v.booleanlab_fingerprint == function_fingerprint(ELASTIC_INTEROP_INPUT_BITS_V1, t)
}

/// Whether every row of `table` equals `value`.
fn all_rows_are(table: &[u8], value: u8) -> (all: bool)
    ensures
        all == forall|x: int| 0 <= x < table@.len() ==> #[trigger] table@[x] == value,
{
    let mut x: usize = 0;
    while x < table.len()
        invariant
            x <= table@.len(),
            forall|y: int| 0 <= y < x ==> #[trigger] table@[y] == value,
        decreases table@.len() - x,
    {
        if table[x] != value {
            return false;
        }
        x += 1;
    }
    true
}

/// The exact vector of one fixture case.
///
/// # Errors
///
/// The evaluation error at the first assignment where the expression fails.
fn vector(case_id: &'static str, shape_class: &'static str, expression_rpn: &'static str) -> (result: Result<
    ElasticInteropVectorV1,
    ElasticInteropVectorError,
>)
    ensures
        rpn_total(expression_rpn@) ==> (result matches Ok(v) && is_exact_vector(
            v,
            case_id@,
            shape_class@,
            expression_rpn@,
        )),
        forall|a: int|
            #[trigger] first_failing_assignment(expression_rpn@, a) ==> (result matches Err(e) && matches_outcome(
                Err(e),
                rpn_outcome(expression_rpn@, ELASTIC_INTEROP_INPUT_BITS_V1, a as u64),
                ELASTIC_INTEROP_INPUT_BITS_V1,
            )),
{
    let mut table: Vec<u8> = Vec::new();
    let mut a: u64 = 0;
    while a < 8
        invariant
            a <= 8,
            table@.len() == a,
            forall|b: int| 0 <= b < a ==> #[trigger] rpn_outcome(expression_rpn@, ELASTIC_INTEROP_INPUT_BITS_V1, b as u64) is Ok,
            forall|b: int| 0 <= b < a ==> #[trigger] table@[b] == rpn_table(expression_rpn@)[b],
        decreases 8 - a,
    {
        match evaluate_rpn(expression_rpn, ELASTIC_INTEROP_INPUT_BITS_V1, a) {
            Ok(value) => {
                table.push(if value { 1u8 } else { 0u8 });
            },
            Err(e) => {
                proof {
                    let ai = a as int;
                    assert(ai as u64 == a);
                    assert(first_failing_assignment(expression_rpn@, ai));
                    assert forall|b: int| #[trigger] first_failing_assignment(expression_rpn@, b) implies b == ai by {
                        if b < ai {
                            assert(rpn_outcome(expression_rpn@, ELASTIC_INTEROP_INPUT_BITS_V1, b as u64) is Ok);
                        } else if b > ai {
                            assert(rpn_outcome(expression_rpn@, ELASTIC_INTEROP_INPUT_BITS_V1, ai as u64) is Ok);
                        }
                    }
                }
                return Err(e);
            },
        }
        a += 1;
    }
    proof {
        assert(table@ =~= rpn_table(expression_rpn@));
        vstd::arithmetic::power2::lemma2_to64();
        assert forall|x: int| 0 <= x < table@.len() implies #[trigger] table@[x] <= 1 by {}
    }
    let function = match BooleanFunction::new(ELASTIC_INTEROP_INPUT_BITS_V1, table) {
        Ok(f) => f,
        Err(e) => return Err(ElasticInteropVectorError::Function(e)),
    };
    let metrics = function.exact_metrics();
    let truth_table = copy_bytes(function.truth_table());
    let logical_class = if all_rows_are(truth_table.as_slice(), 1) {
        ElasticInteropLogicalClassV1::Tautology
    } else if all_rows_are(truth_table.as_slice(), 0) {
        ElasticInteropLogicalClassV1::Contradiction
    } else {
        ElasticInteropLogicalClassV1::Contingent
    };
    Ok(ElasticInteropVectorV1 {
        case_id,
        shape_class,
        input_bits: ELASTIC_INTEROP_INPUT_BITS_V1,
        expression_rpn,
        truth_table,
        algebraic_degree: metrics.algebraic_degree,
        nonlinearity: metrics.nonlinearity,
        balanced: metrics.balanced,
        correlation_immunity: metrics.correlation_immunity,
        logical_class,
        booleanlab_fingerprint: function.stable_fingerprint(),
    })
}


/// Every fixture expression evaluates at every assignment.
pub open spec fn fixture_total() -> bool {
    forall|i: int| 0 <= i < ELASTIC_INTEROP_CASES_V1 ==> rpn_total(#[trigger] case_fields(i).2)
}

/// `i` is the first fixture case whose expression fails somewhere.
pub open spec fn first_failing_case(i: int) -> bool {
    &&& 0 <= i < ELASTIC_INTEROP_CASES_V1
    &&& !rpn_total(case_fields(i).2)
    &&& forall|j: int| 0 <= j < i ==> rpn_total(#[trigger] case_fields(j).2)
}

/// `e` is the error of the first failing case at its first failing assignment.
pub open spec fn is_fixture_failure(e: ElasticInteropVectorError) -> bool {
    exists|i: int, a: int|
        #[trigger] first_failing_case(i) && #[trigger] first_failing_assignment(case_fields(i).2, a) && matches_outcome(
            Err(e),
            rpn_outcome(case_fields(i).2, ELASTIC_INTEROP_INPUT_BITS_V1, a as u64),
            ELASTIC_INTEROP_INPUT_BITS_V1,
        )
}

/// A failing expression has a first failing assignment.
proof fn lemma_first_failing_assignment(e: Seq<char>, a: int)
    requires
        0 <= a < 8,
        !(rpn_outcome(e, ELASTIC_INTEROP_INPUT_BITS_V1, a as u64) is Ok),
    ensures
        exists|b: int| #[trigger] first_failing_assignment(e, b),
    decreases a,
{
    if forall|b: int| 0 <= b < a ==> #[trigger] rpn_outcome(e, ELASTIC_INTEROP_INPUT_BITS_V1, b as u64) is Ok {
        assert(first_failing_assignment(e, a));
    } else {
        let b = choose|b: int| 0 <= b < a && !(#[trigger] rpn_outcome(e, ELASTIC_INTEROP_INPUT_BITS_V1, b as u64) is Ok);
        lemma_first_failing_assignment(e, b);
    }
}

/// The exact fixture vectors in stable case order.
///
/// # Errors
///
/// The evaluation error of the first failing case at its first failing
/// assignment; none occurs when every fixture expression is well formed.
pub fn elastic_interop_vectors_v1() -> (result: Result<Vec<ElasticInteropVectorV1>, ElasticInteropVectorError>)
    ensures
        fixture_total() ==> (result matches Ok(v) && v@.len() == ELASTIC_INTEROP_CASES_V1 && forall|i: int|
            0 <= i < ELASTIC_INTEROP_CASES_V1 ==> is_exact_vector(
                #[trigger] v@[i],
                case_fields(i).0,
                case_fields(i).1,
                case_fields(i).2,
            )),
        !fixture_total() ==> (result matches Err(e) && is_fixture_failure(e)),
{
    let mut vectors: Vec<ElasticInteropVectorV1> = Vec::new();
    let mut i: usize = 0;
    while i < ELASTIC_INTEROP_CASES_V1
        invariant
            i <= ELASTIC_INTEROP_CASES_V1,
            vectors@.len() == i,
            forall|j: int| 0 <= j < i ==> rpn_total(#[trigger] case_fields(j).2),
            forall|j: int| 0 <= j < i ==> is_exact_vector(
                #[trigger] vectors@[j],
                case_fields(j).0,
                case_fields(j).1,
                case_fields(j).2,
            ),
        decreases ELASTIC_INTEROP_CASES_V1 - i,
    {
        let (case_id, shape_class, expression) = case_v1(i);
        let outcome = vector(case_id, shape_class, expression);
        proof {
            if !rpn_total(expression@) {
                let a = choose|a: int| 0 <= a < 8 && !(#[trigger] rpn_outcome(expression@, ELASTIC_INTEROP_INPUT_BITS_V1, a as u64) is Ok);
                lemma_first_failing_assignment(expression@, a);
            }
        }
        match outcome {
            Ok(v) => {
                vectors.push(v);
            },
            Err(e) => {
                proof {
                    let ii = i as int;
                    assert(first_failing_case(ii));
                    let a = choose|a: int| #[trigger] first_failing_assignment(expression@, a);
                    assert(first_failing_assignment(case_fields(ii).2, a));
                }
                return Err(e);
            },
        }
        i += 1;
    }
    Ok(vectors)
}

/// The fixture header line.
pub open spec fn header_text() -> Seq<char> {
    "schema_version\tcase_id\tshape_class\tinput_bits\texpression_rpn\ttruth_table_row_major\talgebraic_degree\tnonlinearity\tbalanced\tcorrelation_immunity\tsatisfiable\ttautology\tcontradiction\tbooleanlab_fingerprint\n"@
}

/// `0` and `1` characters of a 0/1 table, row by row.
pub open spec fn bits_text(t: Seq<u8>) -> Seq<char>
    decreases t.len(),
{
    if t.len() == 0 {
        seq![]
    } else {
        bits_text(t.drop_last()) + if t.last() == 0 {
            "0"@
        } else {
            "1"@
        }
    }
}

/// `true` or `false`.
pub open spec fn bool_text(b: bool) -> Seq<char> {
    if b {
        "true"@
    } else {
        "false"@
    }
}

/// Leading fields of a line: schema, identifier, shape, width and expression.
pub open spec fn row_head_text(id: Seq<char>, shape: Seq<char>, input_bits: nat, e: Seq<char>) -> Seq<char> {
    let tab = "\t"@;
    decimal_text(ELASTIC_INTEROP_VECTOR_SCHEMA_V1 as nat, 0) + tab + id + tab + shape + tab + decimal_text(input_bits, 0)
        + tab + e + tab
}

/// Table and metric fields of a line.
pub open spec fn row_metrics_text(t: Seq<u8>, degree: nat, nonlinearity: nat, balanced: bool, immunity: nat) -> Seq<char> {
    let tab = "\t"@;
    bits_text(t) + tab + decimal_text(degree, 0) + tab + decimal_text(nonlinearity, 0) + tab + bool_text(balanced) + tab
        + decimal_text(immunity, 0) + tab
}

/// Logical-class and fingerprint fields of a line, with its line break.
pub open spec fn row_tail_text(class: ElasticInteropLogicalClassV1, fingerprint: nat) -> Seq<char> {
    let tab = "\t"@;
    bool_text(!(class is Contradiction)) + tab + bool_text(class is Tautology) + tab + bool_text(class is Contradiction)
        + tab + hex_text(fingerprint, 16) + "\n"@
}

/// The TSV line of fixture case `i`.
pub open spec fn case_row_text(i: int) -> Seq<char> {
    let (id, shape, e) = case_fields(i);
    let t = rpn_table(e);
    let m = metrics_of(ELASTIC_INTEROP_INPUT_BITS_V1 as nat, t);
    row_head_text(id, shape, ELASTIC_INTEROP_INPUT_BITS_V1 as nat, e) + row_metrics_text(
        t,
        m.algebraic_degree as nat,
        m.nonlinearity as nat,
        m.balanced,
        m.correlation_immunity as nat,
    ) + row_tail_text(logical_class_of(t), function_fingerprint(ELASTIC_INTEROP_INPUT_BITS_V1, t) as nat)
}

/// Lines of the first `k` fixture cases.
pub open spec fn rows_text(k: nat) -> Seq<char>
    decreases k,
{
    if k == 0 {
        seq![]
    } else {
        rows_text((k - 1) as nat) + case_row_text(k - 1)
    }
}

/// The complete TSV fixture.
pub open spec fn fixture_text() -> Seq<char> {
    header_text() + rows_text(ELASTIC_INTEROP_CASES_V1 as nat)
}

/// Appends `true` or `false`.
fn push_bool(out: &mut String, b: bool)
    ensures
        final(out)@ == old(out)@ + bool_text(b),
{
    if b {
        push_text(out, "true");
    } else {
        push_text(out, "false");
    }
}

/// Appends the `0`/`1` characters of a table.
fn push_bits(out: &mut String, table: &[u8])
    ensures
        final(out)@ == old(out)@ + bits_text(table@),
{
    let ghost start = out@;
    let mut x: usize = 0;
    while x < table.len()
        invariant
            x <= table@.len(),
            out@ == start + bits_text(table@.take(x as int)),
        decreases table@.len() - x,
    {
        let ghost before = out@;
        if table[x] == 0 {
            push_text(out, "0");
        } else {
            push_text(out, "1");
        }
        proof {
            assert(table@.take(x + 1).drop_last() =~= table@.take(x as int));
            assert(out@ =~= start + bits_text(table@.take(x + 1)));
        }
        x += 1;
    }
    proof {
        assert(table@.take(x as int) =~= table@);
    }
}

/// Appends the leading fields of a line.
fn push_row_head(out: &mut String, id: &str, shape: &str, input_bits: u32, e: &str)
    ensures
        final(out)@ == old(out)@ + row_head_text(id@, shape@, input_bits as nat, e@),
{
    let ghost start = out@;
    push_decimal(out, ELASTIC_INTEROP_VECTOR_SCHEMA_V1 as u64, 0);
    push_text(out, "\t");
    push_text(out, id);
    push_text(out, "\t");
    push_text(out, shape);
    push_text(out, "\t");
    push_decimal(out, input_bits as u64, 0);
    push_text(out, "\t");
    push_text(out, e);
    push_text(out, "\t");
    proof {
        assert(out@ =~= start + row_head_text(id@, shape@, input_bits as nat, e@));
    }
}

/// Appends the table and metric fields of a line.
fn push_row_metrics(out: &mut String, table: &[u8], degree: u32, nonlinearity: u64, balanced: bool, immunity: u32)
    ensures
        final(out)@ == old(out)@ + row_metrics_text(table@, degree as nat, nonlinearity as nat, balanced, immunity as nat),
{
    let ghost start = out@;
    push_bits(out, table);
    push_text(out, "\t");
    push_decimal(out, degree as u64, 0);
    push_text(out, "\t");
    push_decimal(out, nonlinearity, 0);
    push_text(out, "\t");
    push_bool(out, balanced);
    push_text(out, "\t");
    push_decimal(out, immunity as u64, 0);
    push_text(out, "\t");
    proof {
        assert(out@ =~= start + row_metrics_text(table@, degree as nat, nonlinearity as nat, balanced, immunity as nat));
    }
}

/// Appends the logical-class and fingerprint fields of a line and its break.
fn push_row_tail(out: &mut String, class: ElasticInteropLogicalClassV1, fingerprint: u64)
    ensures
        final(out)@ == old(out)@ + row_tail_text(class, fingerprint as nat),
{
    let ghost start = out@;
    push_bool(out, class.satisfiable());
    push_text(out, "\t");
    push_bool(out, class.tautology());
    push_text(out, "\t");
    push_bool(out, class.contradiction());
    push_text(out, "\t");
    push_hex(out, fingerprint, 16);
    push_text(out, "\n");
    proof {
        assert(out@ =~= start + row_tail_text(class, fingerprint as nat));
    }
}

/// Appends the TSV line of case `i`.
fn push_row(out: &mut String, v: &ElasticInteropVectorV1, Ghost(i): Ghost<int>)
    requires
        is_exact_vector(*v, case_fields(i).0, case_fields(i).1, case_fields(i).2),
    ensures
        final(out)@ == old(out)@ + case_row_text(i),
{
    let ghost start = out@;
    push_row_head(out, v.case_id, v.shape_class, v.input_bits, v.expression_rpn);
    push_row_metrics(
        out,
        v.truth_table.as_slice(),
        v.algebraic_degree,
        v.nonlinearity,
        v.balanced,
        v.correlation_immunity,
    );
    push_row_tail(out, v.logical_class, v.booleanlab_fingerprint);
    proof {
        assert(out@ =~= start + case_row_text(i));
    }
}

/// Renders the fixture as deterministic TSV: a header line, then one line per
/// case. The truth-table field is row-major: character `x` is `f(x)`, with
/// `p0` bound to the least-significant assignment bit.
///
/// # Errors
///
/// The error of [`elastic_interop_vectors_v1`].
pub fn render_elastic_interop_vectors_v1() -> (result: Result<String, ElasticInteropVectorError>)
    ensures
        fixture_total() ==> (result matches Ok(text) && text@ == fixture_text()),
        !fixture_total() ==> (result matches Err(e) && is_fixture_failure(e)),
{
    let vectors = match elastic_interop_vectors_v1() {
        Ok(v) => v,
        Err(e) => return Err(e),
    };
    let mut output = String::new();
    push_text(&mut output, "schema_version\tcase_id\tshape_class\tinput_bits\texpression_rpn\ttruth_table_row_major\talgebraic_degree\tnonlinearity\tbalanced\tcorrelation_immunity\tsatisfiable\ttautology\tcontradiction\tbooleanlab_fingerprint\n");
    let mut k: usize = 0;
    while k < vectors.len()
        invariant
            fixture_total(),
            vectors@.len() == ELASTIC_INTEROP_CASES_V1,
            forall|i: int| 0 <= i < ELASTIC_INTEROP_CASES_V1 ==> is_exact_vector(
                #[trigger] vectors@[i],
                case_fields(i).0,
                case_fields(i).1,
                case_fields(i).2,
            ),
            k <= vectors@.len(),
            output@ == header_text() + rows_text(k as nat),
        decreases vectors@.len() - k,
    {
        push_row(&mut output, &vectors[k], Ghost(k as int));
        proof {
            assert(output@ =~= header_text() + rows_text((k + 1) as nat));
        }
        k += 1;
    }
    Ok(output)
}

} // verus!
