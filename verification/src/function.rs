//! Exact scalar Boolean functions, their metrics, fingerprints and deduplication.

use vstd::prelude::*;
use vstd::arithmetic::power2::pow2;
use crate::spectral::{
    MAX_EXACT_BITS, algebraic_degree, nonlinearity_of, is_balanced_table, is_bent_table,
    correlation_immunity_of, anf_degree_of_table, nonlinearity, is_balanced, is_bent,
    correlation_immunity, lemma_rows_bound,
};

verus! {

pub const FNV_OFFSET_BASIS: u64 = 0xcbf2_9ce4_8422_2325;

pub const FNV_PRIME: u64 = 0x0000_0100_0000_01b3;

/// A complete truth table over `n` inputs: `2^n` rows, each zero or one, `1 <= n <= 20`.
pub open spec fn valid_truth_table(n: nat, t: Seq<u8>) -> bool {
    &&& 1 <= n <= MAX_EXACT_BITS
    &&& t.len() == pow2(n)
    &&& forall|i: int| 0 <= i < t.len() ==> #[trigger] t[i] <= 1
}

/// Exact scalar Boolean function represented by its complete truth table.
///
/// Row `x` stores `f(x)` at `truth_table[x]`. Inputs are therefore ordered by
/// their packed integer value from zero to `2^n - 1`.
#[derive(Debug, PartialEq, Eq)]
pub struct BooleanFunction {
    input_bits: u32,
    truth_table: Vec<u8>,
}

/// Construction errors for exact Boolean functions.
#[derive(Clone, Debug, PartialEq, Eq)]
pub enum FunctionError {
    ZeroInputs,
    InputWidthTooLarge { width: u32, maximum: u32 },
    TruthTableLength { expected: usize, actual: usize },
    NonBooleanValue { index: usize, value: u8 },
}

/// Exact algebraic and spectral metrics of a Boolean function.
#[derive(Clone, Copy, Debug, PartialEq, Eq)]
pub struct ExactMetrics {
    pub algebraic_degree: u32,
    pub nonlinearity: u64,
    pub balanced: bool,
    pub bent: bool,
    pub correlation_immunity: u32,
}

/// Provenance required for a generated candidate.
#[derive(Clone, Debug, PartialEq, Eq)]
pub struct CandidateProvenance {
    pub candidate_id: String,
    pub generator_family: String,
    pub domain_x: String,
    pub projection: String,
    pub generator_version: String,
    pub configuration_id: String,
}

/// Result of inserting a function into an exact deduplication index.
#[derive(Clone, Copy, Debug, PartialEq, Eq)]
pub enum DedupOutcome {
    New,
    Existing,
}

/// The exact metrics of the `n`-input truth table `t`.
pub open spec fn metrics_of(n: nat, t: Seq<u8>) -> ExactMetrics {
    ExactMetrics {
        algebraic_degree: algebraic_degree(t, n) as u32,
        nonlinearity: nonlinearity_of(t, n) as u64,
        balanced: is_balanced_table(t, n),
        bent: is_bent_table(t, n),
        correlation_immunity: correlation_immunity_of(t, n) as u32,
    }
}

/// One FNV-1a step.
pub open spec fn fnv_step(hash: u64, byte: u8) -> u64 {
    vstd::wrapping::u64_specs::wrapping_mul(hash ^ (byte as u64), FNV_PRIME)
}

/// FNV-1a state after absorbing the first `m` bytes of `bytes`.
pub open spec fn fnv_prefix(bytes: Seq<u8>, m: nat) -> u64
    decreases m,
{
    if m == 0 {
        FNV_OFFSET_BASIS
    } else {
        fnv_step(fnv_prefix(bytes, (m - 1) as nat), bytes[m - 1])
    }
}

/// Little-endian bytes of a 32-bit width.
pub open spec fn width_le_bytes(width: u32) -> Seq<u8> {
    seq![
        (width % 256) as u8,
        ((width / 256) % 256) as u8,
        ((width / 65536) % 256) as u8,
        ((width / 16777216) % 256) as u8,
    ]
}

/// FNV-1a over the little-endian width followed by the truth-table bytes.
pub open spec fn function_fingerprint(width: u32, t: Seq<u8>) -> u64 {
    let bytes = width_le_bytes(width) + t;
    fnv_prefix(bytes, bytes.len())
}

/// FNV-1a absorbs each byte by xoring it into the state before multiplying
/// by the FNV prime modulo `2^64`, starting from the offset basis: absorbing
/// byte `b` from state `h` is absorbing a zero byte from `h ^ b`, and
/// absorbing a zero byte is a multiplication by the prime.
pub proof fn lemma_fnv1a_xor_then_multiply(bytes: Seq<u8>, m: nat, h: u64, b: u8)
    requires
        m < bytes.len(),
    ensures
        fnv_prefix(bytes, 0) == FNV_OFFSET_BASIS,
        fnv_prefix(bytes, m + 1) as int == ((fnv_prefix(bytes, m) ^ (bytes[m as int] as u64)) as int
            * 0x0000_0100_0000_01b3) % 0x1_0000_0000_0000_0000,
        fnv_step(h, b) == fnv_step(h ^ (b as u64), 0),
        fnv_step(h, 0) as int == (h as int * 0x0000_0100_0000_01b3) % 0x1_0000_0000_0000_0000,
{
    assert(h ^ 0u64 == h) by (bit_vector);
    assert((h ^ (b as u64)) ^ 0u64 == h ^ (b as u64)) by (bit_vector);
}

/// Lexicographic `<` on byte sequences (a proper prefix is smaller).
pub open spec fn lex_less(a: Seq<u8>, b: Seq<u8>) -> bool
    decreases a.len(),
{
    if a.len() == 0 {
        b.len() > 0
    } else if b.len() == 0 {
        false
    } else if a[0] != b[0] {
        a[0] < b[0]
    } else {
        lex_less(a.drop_first(), b.drop_first())
    }
}

/// Lexicographic `<` restricted to the rows at and after `i`, for equal-length sequences.
pub open spec fn lex_less_from(a: Seq<u8>, b: Seq<u8>, i: int) -> bool
    decreases a.len() - i,
{
    if i >= a.len() {
        false
    } else if a[i] != b[i] {
        a[i] < b[i]
    } else {
        lex_less_from(a, b, i + 1)
    }
}

/// Output complement `f XOR 1` of a 0/1 truth table.
pub open spec fn complement_table(t: Seq<u8>) -> Seq<u8> {
    t.map_values(|v: u8| (1 - v) as u8)
}

/// The lexicographically smaller of `t` and its complement.
pub open spec fn canonical_complement_table(t: Seq<u8>) -> Seq<u8> {
    if lex_less(complement_table(t), t) {
        complement_table(t)
    } else {
        t
    }
}

proof fn lemma_lex_less_from(a: Seq<u8>, b: Seq<u8>, i: int)
    requires
        a.len() == b.len(),
        0 <= i <= a.len(),
    ensures
        lex_less_from(a, b, i) == lex_less(a.subrange(i, a.len() as int), b.subrange(i, b.len() as int)),
    decreases a.len() - i,
{
    if i < a.len() {
        lemma_lex_less_from(a, b, i + 1);
        let sa = a.subrange(i, a.len() as int);
        let sb = b.subrange(i, b.len() as int);
        assert(sa.drop_first() =~= a.subrange(i + 1, a.len() as int));
        assert(sb.drop_first() =~= b.subrange(i + 1, b.len() as int));
    }
}

/// Lexicographic `<` on equal-length byte slices.
pub fn less_lexicographic(a: &[u8], b: &[u8]) -> (less: bool)
    requires
        a@.len() == b@.len(),
    ensures
        less == lex_less(a@, b@),
{
    let mut i: usize = 0;
    proof {
        lemma_lex_less_from(a@, b@, 0);
        assert(a@.subrange(0, a@.len() as int) =~= a@);
        assert(b@.subrange(0, b@.len() as int) =~= b@);
    }
    while i < a.len()
        invariant
            a@.len() == b@.len(),
            i <= a@.len(),
            lex_less(a@, b@) == lex_less_from(a@, b@, i as int),
        decreases a@.len() - i,
    {
        if a[i] != b[i] {
            return a[i] < b[i];
        }
        i += 1;
    }
    false
}

/// Copies a byte slice element by element.
pub fn copy_bytes(source: &[u8]) -> (copy: Vec<u8>)
    ensures
        copy@ == source@,
{
    let mut copy: Vec<u8> = Vec::with_capacity(source.len());
    let mut i: usize = 0;
    while i < source.len()
        invariant
            i <= source@.len(),
            copy@ == source@.subrange(0, i as int),
        decreases source@.len() - i,
    {
        copy.push(source[i]);
        i += 1;
        proof {
            assert(copy@ =~= source@.subrange(0, i as int));
        }
    }
    proof {
        assert(copy@ =~= source@);
    }
    copy
}

/// Whether two byte slices hold the same bytes.
pub fn same_bytes(a: &[u8], b: &[u8]) -> (same: bool)
    ensures
        same == (a@ == b@),
{
    if a.len() != b.len() {
        return false;
    }
    let mut i: usize = 0;
    while i < a.len()
        invariant
            a@.len() == b@.len(),
            i <= a@.len(),
            forall|j: int| 0 <= j < i ==> a@[j] == b@[j],
        decreases a@.len() - i,
    {
        if a[i] != b[i] {
            return false;
        }
        i += 1;
    }
    proof {
        assert(a@ =~= b@);
    }
    true
}

impl BooleanFunction {
    #[verifier::type_invariant]
    closed spec fn well_formed(self) -> bool {
        valid_truth_table(self.input_bits as nat, self.truth_table@)
    }

    /// Number of Boolean inputs.
    pub closed spec fn input_width(self) -> nat {
        self.input_bits as nat
    }

    /// The complete truth table.
    pub closed spec fn table(self) -> Seq<u8> {
        self.truth_table@
    }

    /// Builds a scalar Boolean function from an exact truth table.
    ///
    /// # Errors
    ///
    /// Returns [`FunctionError::ZeroInputs`] for zero input bits,
    /// [`FunctionError::InputWidthTooLarge`] above the exact-analysis bound,
    /// [`FunctionError::TruthTableLength`] when the table does not have exactly
    /// `2^n` rows, and [`FunctionError::NonBooleanValue`] for the first entry
    /// other than zero or one.
    pub fn new(input_bits: u32, truth_table: Vec<u8>) -> (result: Result<Self, FunctionError>)
        ensures
            input_bits == 0 ==> result == Err::<Self, FunctionError>(FunctionError::ZeroInputs),
            input_bits > MAX_EXACT_BITS ==> result == Err::<Self, FunctionError>(
                FunctionError::InputWidthTooLarge { width: input_bits, maximum: MAX_EXACT_BITS },
            ),
            1 <= input_bits <= MAX_EXACT_BITS && truth_table@.len() != pow2(input_bits as nat)
                ==> result == Err::<Self, FunctionError>(
                FunctionError::TruthTableLength {
                    expected: pow2(input_bits as nat) as usize,
                    actual: truth_table@.len() as usize,
                },
            ),
            1 <= input_bits <= MAX_EXACT_BITS && truth_table@.len() == pow2(input_bits as nat)
                ==> match result {
                Ok(f) => f.input_width() == input_bits && f.table() == truth_table@ && (forall|
                    i: int,
                | 0 <= i < truth_table@.len() ==> #[trigger] truth_table@[i] <= 1),
                Err(e) => exists|i: int|
                    0 <= i < truth_table@.len() && #[trigger] truth_table@[i] > 1 && (forall|
                        j: int,
                    | 0 <= j < i ==> #[trigger] truth_table@[j] <= 1) && e
                        == FunctionError::NonBooleanValue {
                        index: i as usize,
                        value: truth_table@[i],
                    },
            },
    {
        if input_bits == 0 {
            return Err(FunctionError::ZeroInputs);
        }
        if input_bits > MAX_EXACT_BITS {
            return Err(FunctionError::InputWidthTooLarge { width: input_bits, maximum: MAX_EXACT_BITS });
        }
        proof {
            lemma_rows_bound(input_bits as nat);
            vstd::bits::lemma_usize_shl_is_mul(1, input_bits as usize);
        }
        let expected = 1usize << input_bits;
        if truth_table.len() != expected {
            return Err(FunctionError::TruthTableLength { expected, actual: truth_table.len() });
        }
        let mut i: usize = 0;
        while i < truth_table.len()
            invariant
                1 <= input_bits <= MAX_EXACT_BITS,
                truth_table@.len() == pow2(input_bits as nat),
                i <= truth_table@.len(),
                forall|j: int| 0 <= j < i ==> #[trigger] truth_table@[j] <= 1,
            decreases truth_table@.len() - i,
        {
            if truth_table[i] > 1 {
                return Err(FunctionError::NonBooleanValue { index: i, value: truth_table[i] });
            }
            i += 1;
        }
        Ok(Self { input_bits, truth_table })
    }

    /// Evaluates `function` on every row `0..2^n` to build an exact Boolean
    /// function: row `x` of the table is one exactly when `function(x)` holds.
    ///
    /// # Errors
    ///
    /// Returns the same width errors as [`Self::new`].
    pub fn from_fn(input_bits: u32, function: impl Fn(u64) -> bool) -> (result: Result<Self, FunctionError>)
        requires
            1 <= input_bits <= MAX_EXACT_BITS ==> forall|x: u64| x < pow2(input_bits as nat) ==> call_requires(
                function,
                (x,),
            ),
        ensures
            input_bits == 0 ==> result == Err::<Self, FunctionError>(FunctionError::ZeroInputs),
            input_bits > MAX_EXACT_BITS ==> result == Err::<Self, FunctionError>(
                FunctionError::InputWidthTooLarge { width: input_bits, maximum: MAX_EXACT_BITS },
            ),
            1 <= input_bits <= MAX_EXACT_BITS ==> (result matches Ok(f) && f.input_width() == input_bits
                && f.table().len() == pow2(input_bits as nat) && forall|x: int|
                0 <= x < f.table().len() ==> call_ensures(function, (x as u64,), #[trigger] f.table()[x] == 1)),
    {
        if input_bits == 0 {
            return Err(FunctionError::ZeroInputs);
        }
        if input_bits > MAX_EXACT_BITS {
            return Err(FunctionError::InputWidthTooLarge { width: input_bits, maximum: MAX_EXACT_BITS });
        }
        proof {
            lemma_rows_bound(input_bits as nat);
            vstd::bits::lemma_usize_shl_is_mul(1, input_bits as usize);
        }
        let rows = 1usize << input_bits;
        let mut table: Vec<u8> = Vec::new();
        let mut x: usize = 0;
        while x < rows
            invariant
                1 <= input_bits <= MAX_EXACT_BITS,
                rows == pow2(input_bits as nat),
                rows <= 0x100000,
                forall|y: u64| y < pow2(input_bits as nat) ==> call_requires(function, (y,)),
                x <= rows,
                table@.len() == x,
                forall|j: int| 0 <= j < x ==> #[trigger] table@[j] <= 1,
                forall|j: int| 0 <= j < x ==> call_ensures(function, (j as u64,), #[trigger] table@[j] == 1),
            decreases rows - x,
        {
            let holds = function(x as u64);
            table.push(if holds { 1u8 } else { 0u8 });
            x += 1;
        }
        let result = Self::new(input_bits, table);
        proof {
            if result is Err {
                let i = choose|i: int| 0 <= i < table@.len() && #[trigger] table@[i] > 1;
            }
        }
        result
    }

    /// Number of Boolean inputs.
    pub fn input_bits(&self) -> (bits: u32)
        ensures
            bits == self.input_width(),
            valid_truth_table(self.input_width(), self.table()),
    {
        proof {
            use_type_invariant(self);
        }
        self.input_bits
    }

    /// The complete truth table; row `x` holds `f(x)`.
    pub fn truth_table(&self) -> (table: &[u8])
        ensures
            table@ == self.table(),
            valid_truth_table(self.input_width(), self.table()),
    {
        proof {
            use_type_invariant(self);
        }
        self.truth_table.as_slice()
    }

    /// Whether `self` and `other` are the same function on the same input width.
    pub fn same_function(&self, other: &Self) -> (same: bool)
        ensures
            same == (self.input_width() == other.input_width() && self.table() == other.table()),
    {
        self.input_bits == other.input_bits && same_bytes(
            self.truth_table.as_slice(),
            other.truth_table.as_slice(),
        )
    }

    /// An exact copy.
    pub fn duplicate(&self) -> (copy: Self)
        ensures
            copy.input_width() == self.input_width(),
            copy.table() == self.table(),
    {
        proof {
            use_type_invariant(self);
        }
        Self { input_bits: self.input_bits, truth_table: copy_bytes(self.truth_table.as_slice()) }
    }

    /// Computes the exact algebraic degree, nonlinearity, balance, bentness and
    /// correlation-immunity order.
    pub fn exact_metrics(&self) -> (metrics: ExactMetrics)
        ensures
            metrics == metrics_of(self.input_width(), self.table()),
    {
        proof {
            use_type_invariant(self);
        }
        let mut anf_table = copy_bytes(self.truth_table.as_slice());
        ExactMetrics {
            algebraic_degree: anf_degree_of_table(&mut anf_table, self.input_bits),
            nonlinearity: nonlinearity(self.truth_table.as_slice(), self.input_bits),
            balanced: is_balanced(self.truth_table.as_slice(), self.input_bits),
            bent: is_bent(self.truth_table.as_slice(), self.input_bits),
            correlation_immunity: correlation_immunity(self.truth_table.as_slice(), self.input_bits),
        }
    }

    /// Returns a deterministic 64-bit content fingerprint (FNV-1a over the
    /// little-endian input width followed by the truth-table bytes).
    ///
    /// This fingerprint is not cryptographic and must never be used as proof of
    /// equality. [`DedupIndex`] always confirms exact truth-table equality.
    pub fn stable_fingerprint(&self) -> (fingerprint: u64)
        ensures
            fingerprint == function_fingerprint(self.input_width() as u32, self.table()),
    {
        let width = self.input_bits;
        let prefix: [u8; 4] = [
            (width % 256) as u8,
            ((width / 256) % 256) as u8,
            ((width / 65536) % 256) as u8,
            ((width / 16777216) % 256) as u8,
        ];
        let ghost bytes = width_le_bytes(width) + self.truth_table@;
        proof {
            assert(prefix@ =~= width_le_bytes(width));
        }
        let mut hash = FNV_OFFSET_BASIS;
        let mut i: usize = 0;
        while i < 4
            invariant
                i <= 4,
                bytes == width_le_bytes(width) + self.truth_table@,
                prefix@ == width_le_bytes(width),
                hash == fnv_prefix(bytes, i as nat),
            decreases 4 - i,
        {
            hash = (hash ^ (prefix[i] as u64)).wrapping_mul(FNV_PRIME);
            i += 1;
        }
        let mut j: usize = 0;
        while j < self.truth_table.len()
            invariant
                j <= self.truth_table@.len(),
                bytes == width_le_bytes(width) + self.truth_table@,
                hash == fnv_prefix(bytes, (4 + j) as nat),
            decreases self.truth_table@.len() - j,
        {
            proof {
                assert(bytes[4 + j] == self.truth_table@[j as int]);
                assert((4 + j + 1) as nat - 1 == 4 + j);
            }
            hash = (hash ^ (self.truth_table[j] as u64)).wrapping_mul(FNV_PRIME);
            j += 1;
        }
        hash
    }

    /// Canonicalises only under output complementation: `f ~ f XOR 1`.
    ///
    /// This intentionally does not claim affine, extended-affine, CCZ or any
    /// other stronger equivalence. The lexicographically smaller truth table of
    /// `f` and its complement is returned.
    pub fn canonical_under_complement(&self) -> (canonical: Self)
        ensures
            canonical.input_width() == self.input_width(),
            canonical.table() == canonical_complement_table(self.table()),
    {
        proof {
            use_type_invariant(self);
        }
        let mut complement: Vec<u8> = Vec::with_capacity(self.truth_table.len());
        let mut i: usize = 0;
        while i < self.truth_table.len()
            invariant
                i <= self.truth_table@.len(),
                valid_truth_table(self.input_bits as nat, self.truth_table@),
                complement@ == complement_table(self.truth_table@).subrange(0, i as int),
            decreases self.truth_table@.len() - i,
        {
            complement.push(1 - self.truth_table[i]);
            i += 1;
            proof {
                assert(complement@ =~= complement_table(self.truth_table@).subrange(0, i as int));
            }
        }
        proof {
            assert(complement@ =~= complement_table(self.truth_table@));
            assert forall|k: int| 0 <= k < complement@.len() implies #[trigger] complement@[k] <= 1 by {}
        }
        if less_lexicographic(complement.as_slice(), self.truth_table.as_slice()) {
            Self { input_bits: self.input_bits, truth_table: complement }
        } else {
            self.duplicate()
        }
    }
}

/// Collision-safe exact deduplication index.
///
/// The stable 64-bit fingerprint is only a bucket key. Equality is always
/// confirmed by comparing the exact input width and truth-table bytes.
#[derive(Debug)]
pub struct DedupIndex {
    functions: Vec<BooleanFunction>,
    fingerprints: Vec<u64>,
}

impl DedupIndex {
    #[verifier::type_invariant]
    closed spec fn well_formed(self) -> bool {
        &&& self.functions@.len() == self.fingerprints@.len()
        &&& forall|i: int|
            0 <= i < self.functions@.len() ==> #[trigger] self.fingerprints@[i]
                == function_fingerprint(
                self.functions@[i].input_width() as u32,
                self.functions@[i].table(),
            )
        &&& forall|i: int, j: int|
            0 <= i < j < self.functions@.len() ==> !same_key(
                #[trigger] self.functions@[i],
                #[trigger] self.functions@[j],
            )
    }

    /// The distinct functions held, each as (input width, truth table), in insertion order.
    pub closed spec fn contents(self) -> Seq<(nat, Seq<u8>)> {
        self.functions@.map_values(|f: BooleanFunction| (f.input_width(), f.table()))
    }

    pub fn new() -> (index: Self)
        ensures
            index.contents() == Seq::<(nat, Seq<u8>)>::empty(),
    {
        let index = Self { functions: Vec::new(), fingerprints: Vec::new() };
        proof {
            assert(index.contents() =~= Seq::<(nat, Seq<u8>)>::empty());
        }
        index
    }

    /// Inserts a candidate while remaining collision-safe.
    pub fn insert(&mut self, function: BooleanFunction) -> (outcome: DedupOutcome)
        ensures
            old(self).contents().contains((function.input_width(), function.table())) ==> outcome
                == DedupOutcome::Existing && final(self).contents() == old(self).contents(),
            !old(self).contents().contains((function.input_width(), function.table())) ==> outcome
                == DedupOutcome::New && final(self).contents() == old(self).contents().push(
                (function.input_width(), function.table()),
            ),
    {
        proof {
            use_type_invariant(&*self);
        }
        let fingerprint = function.stable_fingerprint();
        let mut i: usize = 0;
        while i < self.functions.len()
            invariant
                i <= self.functions@.len(),
                self.functions@.len() == self.fingerprints@.len(),
                forall|k: int|
                    0 <= k < self.functions@.len() ==> #[trigger] self.fingerprints@[k]
                        == function_fingerprint(
                        self.functions@[k].input_width() as u32,
                        self.functions@[k].table(),
                    ),
                fingerprint == function_fingerprint(function.input_width() as u32, function.table()),
                forall|k: int|
                    0 <= k < i ==> !same_key(#[trigger] self.functions@[k], function),
            decreases self.functions@.len() - i,
        {
            if self.fingerprints[i] == fingerprint && self.functions[i].same_function(&function) {
                proof {
                    assert(self.contents()[i as int] == (function.input_width(), function.table()));
                }
                return DedupOutcome::Existing;
            }
            proof {
                if same_key(self.functions@[i as int], function) {
                    assert(self.fingerprints@[i as int] == fingerprint);
                }
            }
            i += 1;
        }
        proof {
            assert(!self.contents().contains((function.input_width(), function.table()))) by {
                if self.contents().contains((function.input_width(), function.table())) {
                    let k = choose|k: int|
                        0 <= k < self.contents().len() && self.contents()[k] == (
                            function.input_width(),
                            function.table(),
                        );
                    assert(same_key(self.functions@[k], function));
                }
            }
        }
        let ghost old_contents = self.contents();
        let ghost key = (function.input_width(), function.table());
        let mut taken = DedupIndex::new();
        std::mem::swap(self, &mut taken);
        let DedupIndex { mut functions, mut fingerprints } = taken;
        functions.push(function);
        fingerprints.push(fingerprint);
        let updated = DedupIndex { functions, fingerprints };
        proof {
            assert(updated.contents() =~= old_contents.push(key));
        }
        *self = updated;
        DedupOutcome::New
    }

    /// Number of distinct functions inserted so far.
    pub fn unique_functions(&self) -> (count: usize)
        ensures
            count == self.contents().len(),
    {
        proof {
            use_type_invariant(self);
        }
        self.functions.len()
    }
}

impl Clone for BooleanFunction {
    fn clone(&self) -> (copy: Self)
        ensures
            copy.input_width() == self.input_width(),
            copy.table() == self.table(),
    {
        self.duplicate()
    }
}

impl Default for DedupIndex {
    fn default() -> (index: Self)
        ensures
            index.contents() == Seq::<(nat, Seq<u8>)>::empty(),
    {
        Self::new()
    }
}

/// Same input width and truth table.
pub open spec fn same_key(f: BooleanFunction, g: BooleanFunction) -> bool {
    f.input_width() == g.input_width() && f.table() == g.table()
}

/// Lexicographic order on byte sequences is irreflexive.
pub proof fn lemma_lex_irreflexive(a: Seq<u8>)
    ensures
        !lex_less(a, a),
    decreases a.len(),
{
    if a.len() > 0 {
        lemma_lex_irreflexive(a.drop_first());
    }
}

/// Lexicographic order on byte sequences is transitive.
pub proof fn lemma_lex_transitive(a: Seq<u8>, b: Seq<u8>, c: Seq<u8>)
    requires
        lex_less(a, b),
        lex_less(b, c),
    ensures
        lex_less(a, c),
    decreases a.len(),
{
    if a.len() > 0 && b.len() > 0 && c.len() > 0 && a[0] == b[0] && b[0] == c[0] {
        lemma_lex_transitive(a.drop_first(), b.drop_first(), c.drop_first());
    }
}

/// Distinct byte sequences of one length are ordered one way or the other.
pub proof fn lemma_lex_total(a: Seq<u8>, b: Seq<u8>)
    requires
        a.len() == b.len(),
        a != b,
    ensures
        lex_less(a, b) || lex_less(b, a),
    decreases a.len(),
{
    if a.len() > 0 && a[0] == b[0] {
        if a.drop_first() == b.drop_first() {
            assert(a =~= seq![a[0]] + a.drop_first());
            assert(b =~= seq![b[0]] + b.drop_first());
        }
        lemma_lex_total(a.drop_first(), b.drop_first());
    } else if a.len() == 0 {
        assert(a =~= b);
    }
}

/// Complementing a 0/1 table twice gives it back.
pub proof fn lemma_complement_involution(t: Seq<u8>)
    requires
        forall|i: int| 0 <= i < t.len() ==> #[trigger] t[i] <= 1,
    ensures
        complement_table(complement_table(t)) == t,
{
    assert(complement_table(complement_table(t)) =~= t);
}

/// A function and its output complement share one canonical form, and the
/// canonical form is its own canonical form.
pub proof fn lemma_canonical_complement(t: Seq<u8>)
    requires
        forall|i: int| 0 <= i < t.len() ==> #[trigger] t[i] <= 1,
    ensures
        canonical_complement_table(complement_table(t)) == canonical_complement_table(t),
        canonical_complement_table(canonical_complement_table(t)) == canonical_complement_table(t),
{
    let c = complement_table(t);
    lemma_complement_involution(t);
    assert forall|i: int| 0 <= i < c.len() implies #[trigger] c[i] <= 1 by {}
    lemma_complement_involution(c);
    lemma_lex_irreflexive(t);
    lemma_lex_irreflexive(c);
    if t.len() == 0 {
        assert(c =~= t);
    } else {
        assert(c[0] != t[0]);
        assert(c != t);
        lemma_lex_total(c, t);
        if lex_less(c, t) && lex_less(t, c) {
            lemma_lex_transitive(c, t, c);
        }
    }
}

/// Distinct contents after inserting `key`: unchanged when already held, else appended.
pub open spec fn after_insert(s: Seq<(nat, Seq<u8>)>, key: (nat, Seq<u8>)) -> Seq<(nat, Seq<u8>)> {
    if s.contains(key) {
        s
    } else {
        s.push(key)
    }
}

/// Inserting a function holds it afterwards, inserting it again changes
/// nothing, and contents without repeats stay without repeats.
pub proof fn lemma_insert_laws(s: Seq<(nat, Seq<u8>)>, key: (nat, Seq<u8>))
    ensures
        after_insert(s, key).contains(key),
        after_insert(after_insert(s, key), key) == after_insert(s, key),
        s.no_duplicates() ==> after_insert(s, key).no_duplicates(),
{
    if !s.contains(key) {
        assert(s.push(key)[s.len() as int] == key);
        assert(after_insert(s, key).contains(key));
        if s.no_duplicates() {
            let t = s.push(key);
            assert forall|i: int, j: int| 0 <= i < t.len() && 0 <= j < t.len() && i != j implies t[i] != t[j] by {
                if i == s.len() as int {
                    assert(t[j] == s[j]);
                } else if j == s.len() as int {
                    assert(t[i] == s[i]);
                }
            }
        }
    }
}

} // verus!
