//! Exact rule-semantic freeze boundary.
//!
//! An identifier is not a semantic identity. This layer binds each frozen
//! search identifier to its complete truth table, its predicate schema and
//! the resolved predicate parameters; the final holdout must present exactly
//! the same mapping. Equality is exact and never goes through a fingerprint.

use vstd::prelude::*;
use crate::function::{BooleanFunction, same_key};
use crate::text_order::{
    text_less, text_precedes, lemma_text_less_irreflexive, lemma_text_less_transitive,
};
use crate::sparsity_freeze::{
    FrozenSparsitySelection, SparsityFreezeError, contains_id, holdout_valid,
    holdout_validation_error,
};
use crate::sparsity_rule_search::SparsityRuleCandidate;

verus! {

/// One resolved predicate parameter frozen after search.
#[derive(Debug, PartialEq, Eq, PartialOrd, Ord)]
pub struct ResolvedPredicateParameter {
    pub predicate_id: String,
    pub parameter_name: String,
    pub resolved_value: String,
}

impl Clone for ResolvedPredicateParameter {
    fn clone(&self) -> (copy: Self)
        ensures
            copy == *self,
    {
        ResolvedPredicateParameter {
            predicate_id: self.predicate_id.clone(),
            parameter_name: self.parameter_name.clone(),
            resolved_value: self.resolved_value.clone(),
        }
    }
}

/// Binding between one screening identifier and one exact Boolean rule.
#[derive(Debug, PartialEq, Eq)]
pub struct ExactSparsityRuleBinding {
    pub candidate_id: String,
    pub function: BooleanFunction,
    pub predicate_schema: String,
    pub resolved_parameters: Vec<ResolvedPredicateParameter>,
}

/// The observable content of a parameter list.
pub open spec fn parameters_view(p: Seq<ResolvedPredicateParameter>) -> Seq<(Seq<char>, Seq<char>, Seq<char>)> {
    p.map_values(
        |x: ResolvedPredicateParameter| (x.predicate_id@, x.parameter_name@, x.resolved_value@),
    )
}

/// The observable content of a binding.
pub open spec fn binding_view(b: ExactSparsityRuleBinding) -> (
    Seq<char>,
    nat,
    Seq<u8>,
    Seq<char>,
    Seq<(Seq<char>, Seq<char>, Seq<char>)>,
) {
    (
        b.candidate_id@,
        b.function.input_width(),
        b.function.table(),
        b.predicate_schema@,
        parameters_view(b.resolved_parameters@),
    )
}

/// Copies a parameter list.
fn copy_parameters(p: &[ResolvedPredicateParameter]) -> (copy: Vec<ResolvedPredicateParameter>)
    ensures
        copy@ == p@,
{
    let mut copy: Vec<ResolvedPredicateParameter> = Vec::new();
    let mut i: usize = 0;
    while i < p.len()
        invariant
            i <= p@.len(),
            copy@ == p@.take(i as int),
        decreases p@.len() - i,
    {
        copy.push(p[i].clone());
        proof {
            assert(p@.take(i + 1) =~= p@.take(i as int).push(p@[i as int]));
        }
        i += 1;
    }
    proof {
        assert(p@.take(i as int) =~= p@);
    }
    copy
}

impl Clone for ExactSparsityRuleBinding {
    fn clone(&self) -> (copy: Self)
        ensures
            binding_view(copy) == binding_view(*self),
    {
        let resolved_parameters = copy_parameters(self.resolved_parameters.as_slice());
        ExactSparsityRuleBinding {
            candidate_id: self.candidate_id.clone(),
            function: self.function.clone(),
            predicate_schema: self.predicate_schema.clone(),
            resolved_parameters,
        }
    }
}

/// Fail-closed errors of exact semantic binding.
#[derive(Clone, Debug, PartialEq, Eq)]
pub enum SparsitySemanticFreezeError {
    Selection(SparsityFreezeError),
    EmptyBindingId { index: usize },
    EmptyPredicateSchema { candidate_id: String },
    EmptyResolvedParameterField { candidate_id: String, parameter_index: usize },
    DuplicateResolvedParameter { candidate_id: String, predicate_id: String, parameter_name: String },
    DuplicateBinding { candidate_id: String },
    UnfrozenBinding { candidate_id: String },
    MissingFrozenBinding { candidate_id: String },
    RuleSemanticMismatch { candidate_id: String },
    PredicateSchemaMismatch { candidate_id: String },
    ResolvedPredicateParametersMismatch { candidate_id: String },
}

/// Parameter `i` has an empty field or repeats an earlier (predicate, name) key.
pub open spec fn parameter_rejected(p: Seq<ResolvedPredicateParameter>, i: int) -> bool {
    ||| p[i].predicate_id@.len() == 0
    ||| p[i].parameter_name@.len() == 0
    ||| p[i].resolved_value@.len() == 0
    ||| exists|j: int|
        0 <= j < i && #[trigger] p[j].predicate_id@ == p[i].predicate_id@ && p[j].parameter_name@
            == p[i].parameter_name@
}

/// The error for rejected parameter `i` of the binding for `id`.
pub open spec fn parameter_error(id: String, p: Seq<ResolvedPredicateParameter>, i: int) -> SparsitySemanticFreezeError {
    if p[i].predicate_id@.len() == 0 || p[i].parameter_name@.len() == 0 || p[i].resolved_value@.len()
        == 0 {
        SparsitySemanticFreezeError::EmptyResolvedParameterField {
            candidate_id: id,
            parameter_index: i as usize,
        }
    } else {
        SparsitySemanticFreezeError::DuplicateResolvedParameter {
            candidate_id: id,
            predicate_id: p[i].predicate_id,
            parameter_name: p[i].parameter_name,
        }
    }
}

/// Every parameter of the list is well formed and keys are distinct.
pub open spec fn parameters_valid(p: Seq<ResolvedPredicateParameter>) -> bool {
    forall|i: int| 0 <= i < p.len() ==> !#[trigger] parameter_rejected(p, i)
}

/// Binding `i` is rejected against the frozen identifiers `ids`.
pub open spec fn binding_rejected(ids: Seq<String>, b: Seq<ExactSparsityRuleBinding>, i: int) -> bool {
    ||| b[i].candidate_id@.len() == 0
    ||| b[i].predicate_schema@.len() == 0
    ||| !parameters_valid(b[i].resolved_parameters@)
    ||| !exists|k: int| 0 <= k < ids.len() && #[trigger] ids[k]@ == b[i].candidate_id@
    ||| exists|j: int| 0 <= j < i && #[trigger] b[j].candidate_id@ == b[i].candidate_id@
}

/// The error reported for rejected binding `i`, checks taken in order.
pub open spec fn binding_error(
    ids: Seq<String>,
    b: Seq<ExactSparsityRuleBinding>,
    i: int,
    e: SparsitySemanticFreezeError,
) -> bool {
    let x = b[i];
    let p = x.resolved_parameters@;
    if x.candidate_id@.len() == 0 {
        e == SparsitySemanticFreezeError::EmptyBindingId { index: i as usize }
    } else if x.predicate_schema@.len() == 0 {
        e == SparsitySemanticFreezeError::EmptyPredicateSchema { candidate_id: x.candidate_id }
    } else if !parameters_valid(p) {
        exists|m: int|
            0 <= m < p.len() && #[trigger] parameter_rejected(p, m) && (forall|l: int|
                0 <= l < m ==> !#[trigger] parameter_rejected(p, l)) && e == parameter_error(
                x.candidate_id,
                p,
                m,
            )
    } else if !exists|k: int| 0 <= k < ids.len() && #[trigger] ids[k]@ == x.candidate_id@ {
        e == SparsitySemanticFreezeError::UnfrozenBinding { candidate_id: x.candidate_id }
    } else {
        e == SparsitySemanticFreezeError::DuplicateBinding { candidate_id: x.candidate_id }
    }
}

/// Frozen identifier `k` has no binding.
pub open spec fn binding_missing(ids: Seq<String>, b: Seq<ExactSparsityRuleBinding>, k: int) -> bool {
    !exists|j: int| 0 <= j < b.len() && #[trigger] b[j].candidate_id@ == ids[k]@
}

/// Every binding is accepted and every frozen identifier is bound.
pub open spec fn bindings_valid(ids: Seq<String>, b: Seq<ExactSparsityRuleBinding>) -> bool {
    &&& forall|i: int| 0 <= i < b.len() ==> !#[trigger] binding_rejected(ids, b, i)
    &&& forall|k: int| 0 <= k < ids.len() ==> !#[trigger] binding_missing(ids, b, k)
}

/// `e` is the first failure of the binding checks.
pub open spec fn binding_validation_error(
    ids: Seq<String>,
    b: Seq<ExactSparsityRuleBinding>,
    e: SparsitySemanticFreezeError,
) -> bool {
    if exists|i: int| 0 <= i < b.len() && #[trigger] binding_rejected(ids, b, i) {
        exists|i: int|
            0 <= i < b.len() && #[trigger] binding_rejected(ids, b, i) && (forall|j: int|
                0 <= j < i ==> !#[trigger] binding_rejected(ids, b, j)) && binding_error(ids, b, i, e)
    } else {
        exists|k: int|
            0 <= k < ids.len() && #[trigger] binding_missing(ids, b, k) && (forall|l: int|
                0 <= l < k ==> !#[trigger] binding_missing(ids, b, l))
                && e == SparsitySemanticFreezeError::MissingFrozenBinding { candidate_id: ids[k] }
    }
}

/// `j` is the first binding of `b` with identifier `id`.
pub open spec fn first_binding(b: Seq<ExactSparsityRuleBinding>, id: Seq<char>, j: int) -> bool {
    &&& 0 <= j < b.len()
    &&& b[j].candidate_id@ == id
    &&& forall|i: int| 0 <= i < j ==> #[trigger] b[i].candidate_id@ != id
}

/// Two bindings differ in truth table, schema or resolved parameters.
pub open spec fn semantics_differ(x: ExactSparsityRuleBinding, y: ExactSparsityRuleBinding) -> bool {
    ||| !same_key(x.function, y.function)
    ||| x.predicate_schema@ != y.predicate_schema@
    ||| parameters_view(x.resolved_parameters@) != parameters_view(y.resolved_parameters@)
}

/// The error for the semantic drift of frozen rule `x` to holdout rule `y`.
pub open spec fn semantic_error(x: ExactSparsityRuleBinding, y: ExactSparsityRuleBinding) -> SparsitySemanticFreezeError {
    if !same_key(x.function, y.function) {
        SparsitySemanticFreezeError::RuleSemanticMismatch { candidate_id: x.candidate_id }
    } else if x.predicate_schema@ != y.predicate_schema@ {
        SparsitySemanticFreezeError::PredicateSchemaMismatch { candidate_id: x.candidate_id }
    } else {
        SparsitySemanticFreezeError::ResolvedPredicateParametersMismatch {
            candidate_id: x.candidate_id,
        }
    }
}

/// Frozen rule `k` is missing from, or differs in, the holdout bindings.
pub open spec fn rule_drift(rules: Seq<ExactSparsityRuleBinding>, h: Seq<ExactSparsityRuleBinding>, k: int) -> bool {
    ||| !exists|j: int| 0 <= j < h.len() && #[trigger] h[j].candidate_id@ == rules[k].candidate_id@
    ||| exists|j: int|
        #[trigger] first_binding(h, rules[k].candidate_id@, j) && semantics_differ(rules[k], h[j])
}

/// The error for drifting frozen rule `k`.
pub open spec fn rule_drift_error(
    rules: Seq<ExactSparsityRuleBinding>,
    h: Seq<ExactSparsityRuleBinding>,
    k: int,
    e: SparsitySemanticFreezeError,
) -> bool {
    if !exists|j: int| 0 <= j < h.len() && #[trigger] h[j].candidate_id@ == rules[k].candidate_id@ {
        e == SparsitySemanticFreezeError::MissingFrozenBinding { candidate_id: rules[k].candidate_id }
    } else {
        exists|j: int|
            #[trigger] first_binding(h, rules[k].candidate_id@, j) && e == semantic_error(rules[k], h[j])
    }
}

/// No frozen rule is missing from, or changed in, the holdout bindings.
pub open spec fn drift_free(rules: Seq<ExactSparsityRuleBinding>, h: Seq<ExactSparsityRuleBinding>) -> bool {
    forall|k: int| 0 <= k < rules.len() ==> !#[trigger] rule_drift(rules, h, k)
}

/// `e` is the error of the drifting frozen rule with the least identifier.
pub open spec fn drift_error(
    rules: Seq<ExactSparsityRuleBinding>,
    h: Seq<ExactSparsityRuleBinding>,
    e: SparsitySemanticFreezeError,
) -> bool {
    exists|k: int|
        0 <= k < rules.len() && #[trigger] rule_drift(rules, h, k) && rule_drift_error(rules, h, k, e)
            && forall|l: int|
            0 <= l < rules.len() && #[trigger] rule_drift(rules, h, l) ==> !text_less(
                rules[l].candidate_id@,
                rules[k].candidate_id@,
            )
}

/// Holdout objectives, holdout bindings and rule semantics all match the freeze.
pub open spec fn semantic_holdout_valid(
    frozen: FrozenSparsityRuleSelection,
    c: Seq<SparsityRuleCandidate>,
    b: Seq<ExactSparsityRuleBinding>,
) -> bool {
    &&& holdout_valid(frozen.frozen().ids(), frozen.frozen().units(), c)
    &&& bindings_valid(frozen.frozen().ids(), b)
    &&& drift_free(frozen.rules(), b)
}

/// `e` is the first failure of the holdout checks, binding checks and drift checks.
pub open spec fn semantic_holdout_error(
    frozen: FrozenSparsityRuleSelection,
    c: Seq<SparsityRuleCandidate>,
    b: Seq<ExactSparsityRuleBinding>,
    e: SparsitySemanticFreezeError,
) -> bool {
    let ids = frozen.frozen().ids();
    if !holdout_valid(ids, frozen.frozen().units(), c) {
        exists|f: SparsityFreezeError|
            holdout_validation_error(ids, frozen.frozen().units(), c, f) && e
                == SparsitySemanticFreezeError::Selection(f)
    } else if !bindings_valid(ids, b) {
        binding_validation_error(ids, b, e)
    } else {
        drift_error(frozen.rules(), b, e)
    }
}

/// Accepted bindings carry distinct identifiers.
proof fn lemma_binding_ids_distinct(ids: Seq<String>, b: Seq<ExactSparsityRuleBinding>)
    requires
        bindings_valid(ids, b),
    ensures
        forall|i: int, j: int| 0 <= i < b.len() && 0 <= j < b.len() && i != j ==> #[trigger] b[i].candidate_id@
            != #[trigger] b[j].candidate_id@,
{
    assert forall|i: int, j: int| 0 <= i < b.len() && 0 <= j < b.len() && i != j implies #[trigger] b[i].candidate_id@
        != #[trigger] b[j].candidate_id@ by {
        if i < j {
            assert(!binding_rejected(ids, b, j));
        } else {
            assert(!binding_rejected(ids, b, i));
        }
    }
}

/// `b2` holds the bindings of `b` in another order: `order` and `back` are
/// inverse bijections with `b2[i] == b[order[i]]`.
pub open spec fn reordered_bindings(
    b: Seq<ExactSparsityRuleBinding>,
    b2: Seq<ExactSparsityRuleBinding>,
    order: Seq<int>,
    back: Seq<int>,
) -> bool {
    &&& b2.len() == b.len()
    &&& order.len() == b2.len()
    &&& back.len() == b.len()
    &&& forall|i: int| 0 <= i < b2.len() ==> 0 <= #[trigger] order[i] < b.len() && back[order[i]] == i && b2[i] == b[order[i]]
    &&& forall|j: int| 0 <= j < b.len() ==> 0 <= #[trigger] back[j] < b2.len() && order[back[j]] == j
}

/// Accepted bindings stay accepted, and free of drift, in another order.
proof fn lemma_bindings_transfer(
    ids: Seq<String>,
    rules: Seq<ExactSparsityRuleBinding>,
    b: Seq<ExactSparsityRuleBinding>,
    b2: Seq<ExactSparsityRuleBinding>,
    order: Seq<int>,
    back: Seq<int>,
)
    requires
        reordered_bindings(b, b2, order, back),
        bindings_valid(ids, b),
    ensures
        bindings_valid(ids, b2),
        drift_free(rules, b) ==> drift_free(rules, b2),
{
    lemma_binding_ids_distinct(ids, b);
    assert forall|i: int| 0 <= i < b2.len() implies !#[trigger] binding_rejected(ids, b2, i) by {
        let a = order[i];
        assert(!binding_rejected(ids, b, a));
        if exists|j: int| 0 <= j < i && #[trigger] b2[j].candidate_id@ == b2[i].candidate_id@ {
            let j = choose|j: int| 0 <= j < i && #[trigger] b2[j].candidate_id@ == b2[i].candidate_id@;
            assert(b[order[j]].candidate_id@ == b[a].candidate_id@);
        }
        let k = choose|k: int| 0 <= k < ids.len() && #[trigger] ids[k]@ == b[a].candidate_id@;
        assert(ids[k]@ == b2[i].candidate_id@);
    }
    assert forall|k: int| 0 <= k < ids.len() implies !#[trigger] binding_missing(ids, b2, k) by {
        assert(!binding_missing(ids, b, k));
        let j = choose|j: int| 0 <= j < b.len() && #[trigger] b[j].candidate_id@ == ids[k]@;
        assert(b2[back[j]] == b[j]);
    }
    if drift_free(rules, b) {
        assert forall|k: int| 0 <= k < rules.len() implies !#[trigger] rule_drift(rules, b2, k) by {
            let id = rules[k].candidate_id@;
            assert(!rule_drift(rules, b, k));
            let j0 = choose|j: int| 0 <= j < b.len() && #[trigger] b[j].candidate_id@ == id;
            assert(b2[back[j0]].candidate_id@ == id);
            if exists|j: int| #[trigger] first_binding(b2, id, j) && semantics_differ(rules[k], b2[j]) {
                let j = choose|j: int| #[trigger] first_binding(b2, id, j) && semantics_differ(rules[k], b2[j]);
                let a = order[j];
                assert(b2[j] == b[a]);
                assert forall|i: int| 0 <= i < a implies #[trigger] b[i].candidate_id@ != id by {
                    assert(b[i].candidate_id@ != b[a].candidate_id@);
                }
                assert(first_binding(b, id, a));
            }
        }
    }
}

/// Semantic holdout acceptance does not depend on the order of the holdout
/// bindings: the same bindings in any other order are accepted exactly when
/// these are.
pub proof fn lemma_semantic_acceptance_ignores_binding_order(
    frozen: FrozenSparsityRuleSelection,
    c: Seq<SparsityRuleCandidate>,
    b: Seq<ExactSparsityRuleBinding>,
    b2: Seq<ExactSparsityRuleBinding>,
    order: Seq<int>,
    back: Seq<int>,
)
    requires
        reordered_bindings(b, b2, order, back),
    ensures
        semantic_holdout_valid(frozen, c, b) == semantic_holdout_valid(frozen, c, b2),
{
    let ids = frozen.frozen().ids();
    if bindings_valid(ids, b) {
        lemma_bindings_transfer(ids, frozen.rules(), b, b2, order, back);
    }
    assert(reordered_bindings(b2, b, back, order)) by {
        assert forall|j: int| 0 <= j < b.len() implies 0 <= #[trigger] back[j] < b2.len() && order[back[j]] == j
            && b[j] == b2[back[j]] by {
            assert(b2[back[j]] == b[order[back[j]]]);
        }
    }
    if bindings_valid(ids, b2) {
        lemma_bindings_transfer(ids, frozen.rules(), b2, b, back, order);
    }
}

/// Some binding of `b` carries the identifier of `x` and the same truth
/// table, schema and resolved parameters.
pub open spec fn rebound_unchanged(x: ExactSparsityRuleBinding, b: Seq<ExactSparsityRuleBinding>) -> bool {
    exists|j: int| 0 <= j < b.len() && #[trigger] b[j].candidate_id@ == x.candidate_id@ && !semantics_differ(x, b[j])
}

/// For a freeze that bound the rules `fb` to `selection` (what
/// [`FrozenSparsityRuleSelection::bind_search_rules`] promises of its result),
/// a holdout batch `c` with bindings `b` is accepted exactly when `c` passes
/// the selection's own holdout checks, `b` would bind to `selection` too, and
/// every rule of `fb` is bound in `b` to the same truth table, schema and
/// resolved parameters.
pub proof fn lemma_semantic_acceptance_is_unchanged_rebinding(
    frozen: FrozenSparsityRuleSelection,
    selection: FrozenSparsitySelection,
    fb: Seq<ExactSparsityRuleBinding>,
    c: Seq<SparsityRuleCandidate>,
    b: Seq<ExactSparsityRuleBinding>,
)
    requires
        bindings_valid(selection.ids(), fb),
        frozen.frozen() == selection,
        frozen.rules().len() == fb.len(),
        forall|k: int| 0 <= k < fb.len() ==> #[trigger] binding_view(frozen.rules()[k]) == binding_view(fb[k]),
    ensures
        semantic_holdout_valid(frozen, c, b) == (holdout_valid(selection.ids(), selection.units(), c) && bindings_valid(
            selection.ids(),
            b,
        ) && forall|k: int| 0 <= k < fb.len() ==> #[trigger] rebound_unchanged(fb[k], b)),
{
    let rules = frozen.rules();
    if bindings_valid(selection.ids(), b) {
        lemma_binding_ids_distinct(selection.ids(), b);
        if drift_free(rules, b) {
            assert forall|k: int| 0 <= k < fb.len() implies #[trigger] rebound_unchanged(fb[k], b) by {
                assert(binding_view(rules[k]) == binding_view(fb[k]));
                assert(!rule_drift(rules, b, k));
                let j = choose|j: int| 0 <= j < b.len() && #[trigger] b[j].candidate_id@ == rules[k].candidate_id@;
                assert forall|i: int| 0 <= i < j implies #[trigger] b[i].candidate_id@ != rules[k].candidate_id@ by {
                    assert(b[i].candidate_id@ != b[j].candidate_id@);
                }
                assert(first_binding(b, rules[k].candidate_id@, j));
                assert(!semantics_differ(fb[k], b[j]));
            }
        }
        if forall|k: int| 0 <= k < fb.len() ==> #[trigger] rebound_unchanged(fb[k], b) {
            assert forall|k: int| 0 <= k < rules.len() implies !#[trigger] rule_drift(rules, b, k) by {
                assert(binding_view(rules[k]) == binding_view(fb[k]));
                assert(rebound_unchanged(fb[k], b));
                let j = choose|j: int| 0 <= j < b.len() && #[trigger] b[j].candidate_id@ == fb[k].candidate_id@
                    && !semantics_differ(fb[k], b[j]);
                assert(b[j].candidate_id@ == rules[k].candidate_id@);
                if exists|j2: int| #[trigger] first_binding(b, rules[k].candidate_id@, j2) && semantics_differ(rules[k], b[j2]) {
                    let j2 = choose|j2: int| #[trigger] first_binding(b, rules[k].candidate_id@, j2) && semantics_differ(rules[k], b[j2]);
                    if j2 != j {
                        assert(b[j2].candidate_id@ != b[j].candidate_id@);
                    }
                }
            }
        }
    }
}

/// Whether two parameter lists hold the same parameters in the same order.
pub fn same_parameters(a: &[ResolvedPredicateParameter], b: &[ResolvedPredicateParameter]) -> (same: bool)
    ensures
        same == (parameters_view(a@) == parameters_view(b@)),
{
    if a.len() != b.len() {
        proof {
            assert(parameters_view(a@).len() != parameters_view(b@).len());
        }
        return false;
    }
    let mut i: usize = 0;
    while i < a.len()
        invariant
            a@.len() == b@.len(),
            i <= a@.len(),
            forall|j: int| 0 <= j < i ==> #[trigger] parameters_view(a@)[j] == parameters_view(b@)[j],
        decreases a@.len() - i,
    {
        if !(a[i].predicate_id == b[i].predicate_id && a[i].parameter_name == b[i].parameter_name
            && a[i].resolved_value == b[i].resolved_value) {
            proof {
                assert(parameters_view(a@)[i as int] != parameters_view(b@)[i as int]);
            }
            return false;
        }
        i += 1;
    }
    proof {
        assert(parameters_view(a@) =~= parameters_view(b@));
    }
    true
}

/// Checks the resolved parameters of one binding.
pub fn validate_resolved_parameters(binding: &ExactSparsityRuleBinding) -> (result: Result<
    (),
    SparsitySemanticFreezeError,
>)
    ensures
        result is Ok <==> parameters_valid(binding.resolved_parameters@),
        result matches Err(e) ==> exists|m: int|
            0 <= m < binding.resolved_parameters@.len() && #[trigger] parameter_rejected(
                binding.resolved_parameters@,
                m,
            ) && (forall|l: int|
                0 <= l < m ==> !#[trigger] parameter_rejected(binding.resolved_parameters@, l)) && e
                == parameter_error(binding.candidate_id, binding.resolved_parameters@, m),
{
    let p = binding.resolved_parameters.as_slice();
    let mut i: usize = 0;
    while i < p.len()
        invariant
            p@ == binding.resolved_parameters@,
            i <= p@.len(),
            forall|l: int| 0 <= l < i ==> !#[trigger] parameter_rejected(p@, l),
        decreases p@.len() - i,
    {
        let parameter = &p[i];
        if parameter.predicate_id.as_str().is_empty() || parameter.parameter_name.as_str().is_empty()
            || parameter.resolved_value.as_str().is_empty() {
            proof {
                assert(parameter_rejected(p@, i as int));
            }
            return Err(
                SparsitySemanticFreezeError::EmptyResolvedParameterField {
                    candidate_id: binding.candidate_id.clone(),
                    parameter_index: i,
                },
            );
        }
        let mut j: usize = 0;
        while j < i
            invariant
                p@ == binding.resolved_parameters@,
                i < p@.len(),
                j <= i,
                *parameter == p@[i as int],
                p@[i as int].predicate_id@.len() != 0,
                p@[i as int].parameter_name@.len() != 0,
                p@[i as int].resolved_value@.len() != 0,
                forall|l: int| 0 <= l < i ==> !#[trigger] parameter_rejected(p@, l),
                forall|l: int|
                    0 <= l < j ==> !(#[trigger] p@[l].predicate_id@ == p@[i as int].predicate_id@
                        && p@[l].parameter_name@ == p@[i as int].parameter_name@),
            decreases i - j,
        {
            if p[j].predicate_id == parameter.predicate_id && p[j].parameter_name
                == parameter.parameter_name {
                proof {
                    assert(p@[j as int].predicate_id@ == p@[i as int].predicate_id@
                        && p@[j as int].parameter_name@ == p@[i as int].parameter_name@);
                    assert(parameter_rejected(p@, i as int));
                }
                return Err(
                    SparsitySemanticFreezeError::DuplicateResolvedParameter {
                        candidate_id: binding.candidate_id.clone(),
                        predicate_id: parameter.predicate_id.clone(),
                        parameter_name: parameter.parameter_name.clone(),
                    },
                );
            }
            j += 1;
        }
        i += 1;
    }
    Ok(())
}

/// Index of the first binding with identifier `id`, if any.
fn find_binding(bindings: &[ExactSparsityRuleBinding], id: &String) -> (found: Option<usize>)
    ensures
        found is None <==> !exists|j: int| 0 <= j < bindings@.len() && #[trigger] bindings@[j].candidate_id@ == id@,
        found matches Some(j) ==> first_binding(bindings@, id@, j as int),
{
    let mut j: usize = 0;
    while j < bindings.len()
        invariant
            j <= bindings@.len(),
            forall|i: int| 0 <= i < j ==> #[trigger] bindings@[i].candidate_id@ != id@,
        decreases bindings@.len() - j,
    {
        if bindings[j].candidate_id == *id {
            return Some(j);
        }
        j += 1;
    }
    None
}

/// Validates a binding set against the frozen identifiers and copies it.
pub fn validate_binding_set(selection: &FrozenSparsitySelection, bindings: &[ExactSparsityRuleBinding]) -> (result: Result<
    Vec<ExactSparsityRuleBinding>,
    SparsitySemanticFreezeError,
>)
    ensures
        result is Ok <==> bindings_valid(selection.ids(), bindings@),
        result matches Err(e) ==> binding_validation_error(selection.ids(), bindings@, e),
        result matches Ok(rules) ==> rules@.len() == bindings@.len() && forall|k: int|
            0 <= k < rules@.len() ==> #[trigger] binding_view(rules@[k]) == binding_view(bindings@[k]),
{
    let ghost ids = selection.ids();
    let ghost b = bindings@;
    let frozen_ids = selection.candidate_ids();
    let mut rules: Vec<ExactSparsityRuleBinding> = Vec::new();
    let mut i: usize = 0;
    while i < bindings.len()
        invariant
            ids == selection.ids(),
            frozen_ids@ == ids,
            b == bindings@,
            i <= b.len(),
            rules@.len() == i,
            forall|k: int| 0 <= k < i ==> #[trigger] binding_view(rules@[k]) == binding_view(b[k]),
            forall|j: int| 0 <= j < i ==> !#[trigger] binding_rejected(ids, b, j),
        decreases b.len() - i,
    {
        let binding = &bindings[i];
        if binding.candidate_id.as_str().is_empty() {
            proof {
                assert(binding_rejected(ids, b, i as int));
            }
            return Err(SparsitySemanticFreezeError::EmptyBindingId { index: i });
        }
        if binding.predicate_schema.as_str().is_empty() {
            proof {
                assert(binding_rejected(ids, b, i as int));
            }
            return Err(
                SparsitySemanticFreezeError::EmptyPredicateSchema {
                    candidate_id: binding.candidate_id.clone(),
                },
            );
        }
        match validate_resolved_parameters(binding) {
            Err(e) => {
                proof {
                    assert(binding_rejected(ids, b, i as int));
                }
                return Err(e);
            },
            Ok(()) => {},
        }
        if !contains_id(frozen_ids, &binding.candidate_id) {
            proof {
                assert(binding_rejected(ids, b, i as int));
            }
            return Err(
                SparsitySemanticFreezeError::UnfrozenBinding {
                    candidate_id: binding.candidate_id.clone(),
                },
            );
        }
        match find_binding(rules.as_slice(), &binding.candidate_id) {
            Some(j) => {
                proof {
                    assert(binding_view(rules@[j as int]) == binding_view(b[j as int]));
                    assert(b[j as int].candidate_id@ == b[i as int].candidate_id@);
                    assert(binding_rejected(ids, b, i as int));
                }
                return Err(
                    SparsitySemanticFreezeError::DuplicateBinding {
                        candidate_id: binding.candidate_id.clone(),
                    },
                );
            },
            None => {},
        }
        proof {
            assert forall|j: int| 0 <= j < i implies #[trigger] b[j].candidate_id@
                != b[i as int].candidate_id@ by {
                assert(binding_view(rules@[j]) == binding_view(b[j]));
            }
            assert(!binding_rejected(ids, b, i as int));
        }
        rules.push(binding.clone());
        i += 1;
    }
    let mut k: usize = 0;
    while k < frozen_ids.len()
        invariant
            ids == selection.ids(),
            frozen_ids@ == ids,
            b == bindings@,
            forall|j: int| 0 <= j < b.len() ==> !#[trigger] binding_rejected(ids, b, j),
            k <= ids.len(),
            forall|l: int| 0 <= l < k ==> !#[trigger] binding_missing(ids, b, l),
            rules@.len() == b.len(),
            forall|m: int| 0 <= m < rules@.len() ==> #[trigger] binding_view(rules@[m]) == binding_view(b[m]),
        decreases ids.len() - k,
    {
        match find_binding(bindings, &frozen_ids[k]) {
            None => {
                proof {
                    assert(binding_missing(ids, b, k as int));
                }
                return Err(
                    SparsitySemanticFreezeError::MissingFrozenBinding {
                        candidate_id: frozen_ids[k].clone(),
                    },
                );
            },
            Some(_) => {},
        }
        k += 1;
    }
    Ok(rules)
}

/// Frozen identifier-to-rule mapping that must survive unchanged into holdout.
#[derive(Debug, PartialEq, Eq)]
pub struct FrozenSparsityRuleSelection {
    selection: FrozenSparsitySelection,
    rules: Vec<ExactSparsityRuleBinding>,
}

impl FrozenSparsityRuleSelection {
    #[verifier::type_invariant]
    closed spec fn distinct_rules(self) -> bool {
        forall|i: int, j: int|
            0 <= i < j < self.rules@.len() ==> #[trigger] self.rules@[i].candidate_id@
                != #[trigger] self.rules@[j].candidate_id@
    }

    /// The frozen identity selection.
    pub closed spec fn frozen(self) -> FrozenSparsitySelection {
        self.selection
    }

    /// The frozen rule bindings, one per frozen identifier, in binding order.
    pub closed spec fn rules(self) -> Seq<ExactSparsityRuleBinding> {
        self.rules@
    }

    /// Binds a frozen search frontier to exact truth tables, predicate schemas
    /// and resolved parameters.
    ///
    /// # Errors
    ///
    /// Rejects empty or duplicate identifiers, empty schemas, malformed or
    /// duplicate parameters, unfrozen identifiers and missing frozen ones.
    pub fn bind_search_rules(selection: FrozenSparsitySelection, bindings: &[ExactSparsityRuleBinding]) -> (result:
        Result<Self, SparsitySemanticFreezeError>)
        ensures
            result is Ok <==> bindings_valid(selection.ids(), bindings@),
            result matches Err(e) ==> binding_validation_error(selection.ids(), bindings@, e),
            result matches Ok(frozen) ==> frozen.frozen() == selection && frozen.rules().len()
                == bindings@.len() && forall|k: int|
                0 <= k < bindings@.len() ==> #[trigger] binding_view(frozen.rules()[k]) == binding_view(
                    bindings@[k],
                ),
    {
        let rules = match validate_binding_set(&selection, bindings) {
            Ok(rules) => rules,
            Err(e) => {
                return Err(e);
            },
        };
        proof {
            assert forall|i: int, j: int| 0 <= i < j < rules@.len() implies #[trigger] rules@[i].candidate_id@
                != #[trigger] rules@[j].candidate_id@ by {
                assert(binding_view(rules@[i]) == binding_view(bindings@[i]));
                assert(binding_view(rules@[j]) == binding_view(bindings@[j]));
                assert(!binding_rejected(selection.ids(), bindings@, j));
            }
        }
        Ok(Self { selection, rules })
    }

    /// A copy with the same selection and rules.
    pub fn duplicate(&self) -> (copy: Self)
        ensures
            copy.frozen().ids() == self.frozen().ids(),
            copy.frozen().units() == self.frozen().units(),
            copy.rules().len() == self.rules().len(),
            forall|k: int| 0 <= k < self.rules().len() ==> #[trigger] binding_view(copy.rules()[k]) == binding_view(self.rules()[k]),
    {
        proof {
            use_type_invariant(self);
        }
        let selection = self.selection.duplicate();
        let mut rules: Vec<ExactSparsityRuleBinding> = Vec::new();
        let mut k: usize = 0;
        while k < self.rules.len()
            invariant
                k <= self.rules@.len(),
                rules@.len() == k,
                forall|i: int| 0 <= i < k ==> #[trigger] binding_view(rules@[i]) == binding_view(self.rules@[i]),
            decreases self.rules@.len() - k,
        {
            rules.push(self.rules[k].clone());
            k += 1;
        }
        proof {
            assert forall|i: int, j: int| 0 <= i < j < rules@.len() implies #[trigger] rules@[i].candidate_id@
                != #[trigger] rules@[j].candidate_id@ by {
                assert(binding_view(rules@[i]) == binding_view(self.rules@[i]));
                assert(binding_view(rules@[j]) == binding_view(self.rules@[j]));
            }
        }
        Self { selection, rules }
    }

    /// The frozen identity selection.
    pub fn selection(&self) -> (selection: &FrozenSparsitySelection)
        ensures
            *selection == self.frozen(),
    {
        &self.selection
    }

    /// Validates final holdout objectives and exact rule semantics together.
    ///
    /// Among frozen rules that are missing or changed in the holdout bindings,
    /// the one with the least identifier is reported.
    ///
    /// # Errors
    ///
    /// Propagates invalid holdout evidence as
    /// [`SparsitySemanticFreezeError::Selection`], rejects malformed, missing,
    /// extra or duplicate bindings, and any truth-table, schema or parameter drift.
    pub fn validate_holdout(
        &self,
        candidates: &[SparsityRuleCandidate],
        bindings: &[ExactSparsityRuleBinding],
    ) -> (result: Result<(), SparsitySemanticFreezeError>)
        ensures
            result is Ok <==> semantic_holdout_valid(*self, candidates@, bindings@),
            result matches Err(e) ==> semantic_holdout_error(*self, candidates@, bindings@, e),
    {
        proof {
            use_type_invariant(self);
        }
        match self.selection.validate_holdout(candidates) {
            Err(e) => {
                return Err(SparsitySemanticFreezeError::Selection(e));
            },
            Ok(()) => {},
        }
        match validate_binding_set(&self.selection, bindings) {
            Err(e) => {
                return Err(e);
            },
            Ok(_) => {},
        }
        let ghost r = self.rules@;
        let ghost h = bindings@;
        let mut best: Option<(usize, SparsitySemanticFreezeError)> = None;
        let mut k: usize = 0;
        while k < self.rules.len()
            invariant
                r == self.rules@,
                r == self.rules(),
                h == bindings@,
                k <= r.len(),
                forall|i: int, j: int|
                    0 <= i < j < r.len() ==> #[trigger] r[i].candidate_id@ != #[trigger] r[j].candidate_id@,
                best is None ==> forall|l: int| 0 <= l < k ==> !#[trigger] rule_drift(r, h, l),
                best matches Some(found) ==> found.0 < k && rule_drift(r, h, found.0 as int)
                    && rule_drift_error(r, h, found.0 as int, found.1) && forall|l: int|
                    0 <= l < k && #[trigger] rule_drift(r, h, l) ==> !text_less(
                        r[l].candidate_id@,
                        r[found.0 as int].candidate_id@,
                    ),
            decreases r.len() - k,
        {
            let rule = &self.rules[k];
            let drift = match find_binding(bindings, &rule.candidate_id) {
                None => Some(
                    SparsitySemanticFreezeError::MissingFrozenBinding {
                        candidate_id: rule.candidate_id.clone(),
                    },
                ),
                Some(j) => {
                    let held = &bindings[j];
                    if !rule.function.same_function(&held.function) {
                        Some(
                            SparsitySemanticFreezeError::RuleSemanticMismatch {
                                candidate_id: rule.candidate_id.clone(),
                            },
                        )
                    } else if rule.predicate_schema != held.predicate_schema {
                        Some(
                            SparsitySemanticFreezeError::PredicateSchemaMismatch {
                                candidate_id: rule.candidate_id.clone(),
                            },
                        )
                    } else if !same_parameters(
                        rule.resolved_parameters.as_slice(),
                        held.resolved_parameters.as_slice(),
                    ) {
                        Some(
                            SparsitySemanticFreezeError::ResolvedPredicateParametersMismatch {
                                candidate_id: rule.candidate_id.clone(),
                            },
                        )
                    } else {
                        proof {
                            assert forall|j2: int| #[trigger] first_binding(h, r[k as int].candidate_id@, j2)
                                implies !semantics_differ(r[k as int], h[j2]) by {
                                assert(j2 == j);
                            }
                        }
                        None
                    }
                },
            };
            match drift {
                None => {
                    proof {
                        assert(!rule_drift(r, h, k as int));
                    }
                },
                Some(e) => {
                    proof {
                        assert(rule_drift(r, h, k as int));
                        assert(rule_drift_error(r, h, k as int, e));
                    }
                    let replace = match &best {
                        None => true,
                        Some(found) => text_precedes(
                            rule.candidate_id.as_str(),
                            self.rules[found.0].candidate_id.as_str(),
                        ),
                    };
                    if replace {
                        proof {
                            match best {
                                None => {},
                                Some(found) => {
                                    let b0 = found.0 as int;
                                    assert forall|l: int|
                                        0 <= l < k + 1 && #[trigger] rule_drift(r, h, l) implies !text_less(
                                        r[l].candidate_id@,
                                        r[k as int].candidate_id@,
                                    ) by {
                                        if l == k {
                                            lemma_text_less_irreflexive(r[l].candidate_id@, 0);
                                        } else if text_less(r[l].candidate_id@, r[k as int].candidate_id@) {
                                            lemma_text_less_transitive(
                                                r[l].candidate_id@,
                                                r[k as int].candidate_id@,
                                                r[b0].candidate_id@,
                                                0,
                                            );
                                        }
                                    }
                                },
                            }
                            if best is None {
                                assert forall|l: int|
                                    0 <= l < k + 1 && #[trigger] rule_drift(r, h, l) implies !text_less(
                                    r[l].candidate_id@,
                                    r[k as int].candidate_id@,
                                ) by {
                                    lemma_text_less_irreflexive(r[l].candidate_id@, 0);
                                }
                            }
                        }
                        best = Some((k, e));
                    }
                },
            }
            k += 1;
        }
        match best {
            None => Ok(()),
            Some(found) => Err(found.1),
        }
    }
}

impl Clone for FrozenSparsityRuleSelection {
    fn clone(&self) -> (copy: Self)
        ensures
            copy.frozen().ids() == self.frozen().ids(),
            copy.frozen().units() == self.frozen().units(),
            copy.rules().len() == self.rules().len(),
            forall|k: int| 0 <= k < self.rules().len() ==> #[trigger] binding_view(copy.rules()[k]) == binding_view(self.rules()[k]),
    {
        self.duplicate()
    }
}

} // verus!
