//! Deterministic bounded Boolean-only circuit search and its exact screening.
//!
//! A SplitMix64 stream draws random circuits; each circuit's exact truth table
//! is deduplicated, measured, and screened into a Pareto front over
//! nonlinearity, imbalance, correlation immunity, gate count and depth.

use vstd::prelude::*;
use vstd::arithmetic::power2::pow2;
use crate::circuit::{
    BooleanCircuit, CircuitError, Node, MAX_EXACT_INPUT_BITS, nodes_well_formed, node_well_formed,
    output_table,
};
use crate::function::{
    BooleanFunction, ExactMetrics, FunctionError, DedupIndex, DedupOutcome, metrics_of,
    function_fingerprint, valid_truth_table,
};
use crate::spectral::{
    ones_upto, MAX_EXACT_BITS, lemma_rows_bound, walsh_coefficient, walsh_hadamard,
    lemma_walsh_coefficient_bound,
};
use crate::sparsity_exhaustive_search::code_table;
use crate::bitwise::{lemma_shr_is_div, bit_weight};
use crate::sparsity_cegis_search::lemma_distinct_rows_bound;

verus! {

/// Deterministic bounded Boolean-only circuit-search configuration.
#[derive(Clone, Copy, Debug, PartialEq, Eq, Structural)]
pub struct BaselineConfig {
    pub input_bits: u32,
    pub candidates: u32,
    pub min_gates: usize,
    pub max_gates: usize,
    pub seed: u64,
}

/// One unique Boolean function retained from the bounded search.
#[derive(Debug, PartialEq, Eq)]
pub struct BaselineRecord {
    pub function: BooleanFunction,
    pub metrics: ExactMetrics,
    pub gate_count: usize,
    pub depth: usize,
    pub imbalance: usize,
}

/// Two records hold the same function and the same measurements.
pub open spec fn same_record(a: BaselineRecord, b: BaselineRecord) -> bool {
    &&& a.function.input_width() == b.function.input_width()
    &&& a.function.table() == b.function.table()
    &&& a.metrics == b.metrics
    &&& a.gate_count == b.gate_count
    &&& a.depth == b.depth
    &&& a.imbalance == b.imbalance
}

impl Clone for BaselineRecord {
    fn clone(&self) -> (copy: Self)
        ensures
            same_record(copy, *self),
    {
        BaselineRecord {
            function: self.function.clone(),
            metrics: self.metrics,
            gate_count: self.gate_count,
            depth: self.depth,
            imbalance: self.imbalance,
        }
    }
}

/// Summary of a bounded Boolean-only search campaign.
#[derive(Debug, PartialEq, Eq)]
pub struct BaselineSummary {
    pub config: BaselineConfig,
    pub generated: u32,
    pub unique_functions: usize,
    pub balanced_functions: usize,
    pub bent_functions: usize,
    pub best_nonlinearity: u64,
    pub pareto_front: Vec<BaselineRecord>,
    /// Every unique function, in order of first generation.
    pub population: Vec<BaselineRecord>,
}

/// Exhaustive four-input calibration statistics.
#[derive(Clone, Copy, Debug, PartialEq, Eq, Structural)]
pub struct FourVariableReferenceStats {
    pub total_functions: u32,
    pub balanced_functions: u32,
    pub bent_functions: u32,
    pub resilient_functions: u32,
    pub three_valued_plateaued_functions: u32,
    pub best_nonlinearity: u64,
    pub best_balanced_nonlinearity: u64,
}

/// Errors of the Boolean-only baseline.
#[derive(Clone, Debug, PartialEq, Eq)]
pub enum BaselineError {
    ZeroCandidates,
    InvalidGateRange { min_gates: usize, max_gates: usize },
    InputWidth { width: u32, maximum: usize },
    Circuit(CircuitError),
    Function(FunctionError),
}

impl BaselineConfig {
    /// The frozen reference configuration: 4096 circuits of 4 to 24 gates on 8 inputs.
    pub fn bl13_reference() -> (config: Self)
        ensures
            config == (BaselineConfig {
                input_bits: 8,
                candidates: 4096,
                min_gates: 4,
                max_gates: 24,
                seed: 0x424c_3133_5f42_4153,
            }),
    {
        Self { input_bits: 8, candidates: 4_096, min_gates: 4, max_gates: 24, seed: 0x424c_3133_5f42_4153 }
    }
}

pub const SPLITMIX_GAMMA: u64 = 0x9e37_79b9_7f4a_7c15;

pub const SPLITMIX_MIX1: u64 = 0xbf58_476d_1ce4_e5b9;

pub const SPLITMIX_MIX2: u64 = 0x94d0_49bb_1331_11eb;

/// The SplitMix64 state after one step.
pub open spec fn sm_advance(state: u64) -> u64 {
    vstd::wrapping::u64_specs::wrapping_add(state, SPLITMIX_GAMMA)
}

/// The SplitMix64 output function applied to an advanced state.
pub open spec fn sm_mix(z: u64) -> u64 {
    let a = vstd::wrapping::u64_specs::wrapping_mul(z ^ (z >> 30u64), SPLITMIX_MIX1);
    let b = vstd::wrapping::u64_specs::wrapping_mul(a ^ (a >> 27u64), SPLITMIX_MIX2);
    b ^ (b >> 31u64)
}

/// The value drawn below `upper` from state `state` (the state then advances once).
pub open spec fn sm_draw(state: u64, upper: nat) -> nat {
    (sm_mix(sm_advance(state)) as nat) % upper
}

/// Deterministic SplitMix64 stream.
#[derive(Clone, Copy, Debug)]
pub struct SplitMix64 {
    pub state: u64,
}

impl SplitMix64 {
    pub fn new(seed: u64) -> (rng: Self)
        ensures
            rng.state == seed,
    {
        Self { state: seed }
    }

    pub fn next(&mut self) -> (value: u64)
        ensures
            final(self).state == sm_advance(old(self).state),
            value == sm_mix(final(self).state),
    {
        self.state = self.state.wrapping_add(SPLITMIX_GAMMA);
        let mut value = self.state;
        value = (value ^ (value >> 30u64)).wrapping_mul(SPLITMIX_MIX1);
        value = (value ^ (value >> 27u64)).wrapping_mul(SPLITMIX_MIX2);
        value ^ (value >> 31u64)
    }

    pub fn bounded(&mut self, upper: usize) -> (value: usize)
        requires
            upper > 0,
        ensures
            final(self).state == sm_advance(old(self).state),
            value == sm_draw(old(self).state, upper as nat),
            value < upper,
    {
        let drawn = self.next();
        (drawn % (upper as u64)) as usize
    }
}

/// Node for a random gate: `kind` (a value below 8) picks the operation, `a`, `b`, `c` the operands.
pub open spec fn gate_node(kind: nat, a: nat, b: nat, c: nat) -> Node {
    if kind == 0 {
        Node::Not(a as usize)
    } else if kind == 1 {
        Node::And(a as usize, b as usize)
    } else if kind == 2 {
        Node::Or(a as usize, b as usize)
    } else if kind == 3 {
        Node::Xor(a as usize, b as usize)
    } else if kind == 4 {
        Node::Xnor(a as usize, b as usize)
    } else if kind == 5 {
        Node::Nand(a as usize, b as usize)
    } else if kind == 6 {
        Node::Nor(a as usize, b as usize)
    } else {
        Node::Mux { select: a as usize, when_false: b as usize, when_true: c as usize }
    }
}

pub open spec fn max_nat(x: nat, y: nat) -> nat {
    if x >= y {
        x
    } else {
        y
    }
}

/// Depth of the new gate: one more than its deepest operand.
pub open spec fn gate_depth(kind: nat, a: nat, b: nat, c: nat, d: Seq<usize>) -> nat {
    if kind == 0 {
        d[a as int] as nat + 1
    } else if kind < 7 {
        max_nat(d[a as int] as nat, d[b as int] as nat) + 1
    } else {
        max_nat(max_nat(d[a as int] as nat, d[b as int] as nat), d[c as int] as nat) + 1
    }
}

/// Appends `remaining` random gates: each draws its kind, then three operands
/// among the nodes present. Returns the nodes, their depths and the final state.
pub open spec fn grow_circuit(nodes: Seq<Node>, depths: Seq<usize>, state: u64, remaining: nat) -> (
    Seq<Node>,
    Seq<usize>,
    u64,
)
    decreases remaining,
{
    if remaining == 0 {
        (nodes, depths, state)
    } else {
        let available = nodes.len();
        let kind = sm_draw(state, 8);
        let s1 = sm_advance(state);
        let a = sm_draw(s1, available);
        let s2 = sm_advance(s1);
        let b = sm_draw(s2, available);
        let s3 = sm_advance(s2);
        let c = sm_draw(s3, available);
        let s4 = sm_advance(s3);
        grow_circuit(
            nodes.push(gate_node(kind, a, b, c)),
            depths.push(gate_depth(kind, a, b, c, depths) as usize),
            s4,
            (remaining - 1) as nat,
        )
    }
}

/// The inputs followed by the constants false and true.
pub open spec fn initial_nodes(width: nat) -> Seq<Node> {
    Seq::new(width, |i: int| Node::Input(i as usize)) + seq![Node::Const(false), Node::Const(true)]
}

/// One zero depth per initial node.
pub open spec fn initial_depths(width: nat) -> Seq<usize> {
    Seq::new(width + 2, |i: int| 0usize)
}

/// The random circuit of `gates` gates drawn from `state`: its nodes, the depth
/// of its last node, and the state afterwards.
pub open spec fn random_circuit_spec(width: nat, gates: nat, state: u64) -> (Seq<Node>, usize, u64) {
    let grown = grow_circuit(initial_nodes(width), initial_depths(width), state, gates);
    (grown.0, grown.1.last(), grown.2)
}

/// Every node past the initial ones is a gate reading earlier nodes, and
/// depths are bounded by the number of gates placed.
proof fn lemma_grow_shape(nodes: Seq<Node>, depths: Seq<usize>, state: u64, remaining: nat, width: nat, placed: nat)
    requires
        nodes.len() >= width + 2,
        nodes_well_formed(nodes, width),
        depths.len() == nodes.len(),
        forall|i: int| 0 <= i < depths.len() ==> #[trigger] depths[i] <= placed,
        placed + remaining < usize::MAX,
    ensures
        ({
            let grown = grow_circuit(nodes, depths, state, remaining);
            &&& grown.0.len() == nodes.len() + remaining
            &&& grown.1.len() == grown.0.len()
            &&& nodes_well_formed(grown.0, width)
            &&& forall|i: int| 0 <= i < grown.1.len() ==> #[trigger] grown.1[i] <= placed + remaining
        }),
    decreases remaining,
{
    if remaining > 0 {
        let available = nodes.len();
        let kind = sm_draw(state, 8);
        let s1 = sm_advance(state);
        let a = sm_draw(s1, available);
        let s2 = sm_advance(s1);
        let b = sm_draw(s2, available);
        let s3 = sm_advance(s2);
        let c = sm_draw(s3, available);
        let s4 = sm_advance(s3);
        let node = gate_node(kind, a, b, c);
        let new_nodes = nodes.push(node);
        let new_depths = depths.push(gate_depth(kind, a, b, c, depths) as usize);
        assert(node_well_formed(node, nodes.len() as int, width));
        assert(nodes_well_formed(new_nodes, width)) by {
            assert forall|i: int| 0 <= i < new_nodes.len() implies #[trigger] node_well_formed(new_nodes[i], i, width) by {
                if i < nodes.len() {
                    assert(new_nodes[i] == nodes[i]);
                }
            }
        }
        assert forall|i: int| 0 <= i < new_depths.len() implies #[trigger] new_depths[i] <= placed + 1 by {
            if i < depths.len() {
                assert(depths[i] <= placed);
            } else {
                assert(depths[a as int] <= placed);
                assert(depths[b as int] <= placed);
                assert(depths[c as int] <= placed);
            }
        }
        lemma_grow_shape(new_nodes, new_depths, s4, (remaining - 1) as nat, width, placed + 1);
    }
}

/// Draws one random circuit of `gate_count` gates; returns it and its depth.
///
/// # Errors
///
/// Wraps a circuit-construction failure as [`BaselineError::Circuit`].
fn random_circuit(input_bits: u32, gate_count: usize, rng: &mut SplitMix64) -> (result: Result<
    (BooleanCircuit, usize),
    BaselineError,
>)
    requires
        1 <= input_bits <= MAX_EXACT_INPUT_BITS,
        gate_count < usize::MAX - 64,
    ensures
        ({
            let expected = random_circuit_spec(input_bits as nat, gate_count as nat, old(rng).state);
            result matches Ok(built) && built.0.spec_nodes() == expected.0 && built.1 == expected.1
                && built.0.spec_input_width() == input_bits && built.0.spec_outputs() == seq![
                (expected.0.len() - 1) as usize] && final(rng).state == expected.2
                && expected.0.len() == input_bits + 2 + gate_count
        }),
{
    let input_width = input_bits as usize;
    let mut nodes: Vec<Node> = Vec::new();
    let mut depths: Vec<usize> = Vec::new();
    let mut i: usize = 0;
    while i < input_width
        invariant
            i <= input_width,
            input_width == input_bits,
            nodes@ == Seq::new(i as nat, |k: int| Node::Input(k as usize)),
            depths@ == Seq::new(i as nat, |k: int| 0usize),
        decreases input_width - i,
    {
        nodes.push(Node::Input(i));
        depths.push(0);
        proof {
            assert(nodes@ =~= Seq::new((i + 1) as nat, |k: int| Node::Input(k as usize)));
            assert(depths@ =~= Seq::new((i + 1) as nat, |k: int| 0usize));
        }
        i += 1;
    }
    nodes.push(Node::Const(false));
    nodes.push(Node::Const(true));
    depths.push(0);
    depths.push(0);
    let ghost width = input_bits as nat;
    proof {
        assert(nodes@ =~= initial_nodes(width));
        assert(depths@ =~= initial_depths(width));
        assert(nodes_well_formed(nodes@, width)) by {
            assert forall|k: int| 0 <= k < nodes@.len() implies #[trigger] node_well_formed(nodes@[k], k, width) by {
                if k < width {
                    assert(nodes@[k] == Node::Input(k as usize));
                }
            }
        }
        lemma_grow_shape(nodes@, depths@, rng.state, gate_count as nat, width, 0);
    }
    let ghost target = grow_circuit(nodes@, depths@, rng.state, gate_count as nat);
    let mut placed: usize = 0;
    while placed < gate_count
        invariant
            width == input_bits,
            width <= MAX_EXACT_INPUT_BITS,
            gate_count < usize::MAX - 64,
            placed <= gate_count,
            nodes@.len() == width + 2 + placed,
            depths@.len() == nodes@.len(),
            nodes_well_formed(nodes@, width),
            forall|k: int| 0 <= k < depths@.len() ==> #[trigger] depths@[k] <= placed,
            grow_circuit(nodes@, depths@, rng.state, (gate_count - placed) as nat) == target,
        decreases gate_count - placed,
    {
        let available = nodes.len();
        let ghost state = rng.state;
        let gate = rng.bounded(8);
        let a = rng.bounded(available);
        let b = rng.bounded(available);
        let c = rng.bounded(available);
        let (node, depth) = if gate == 0 {
            (Node::Not(a), depths[a] + 1)
        } else {
            let ab = if depths[a] >= depths[b] {
                depths[a]
            } else {
                depths[b]
            };
            if gate == 1 {
                (Node::And(a, b), ab + 1)
            } else if gate == 2 {
                (Node::Or(a, b), ab + 1)
            } else if gate == 3 {
                (Node::Xor(a, b), ab + 1)
            } else if gate == 4 {
                (Node::Xnor(a, b), ab + 1)
            } else if gate == 5 {
                (Node::Nand(a, b), ab + 1)
            } else if gate == 6 {
                (Node::Nor(a, b), ab + 1)
            } else {
                let abc = if ab >= depths[c] {
                    ab
                } else {
                    depths[c]
                };
                (Node::Mux { select: a, when_false: b, when_true: c }, abc + 1)
            }
        };
        proof {
            assert(node == gate_node(gate as nat, a as nat, b as nat, c as nat));
            assert(depth == gate_depth(gate as nat, a as nat, b as nat, c as nat, depths@));
        }
        let ghost old_nodes = nodes@;
        nodes.push(node);
        depths.push(depth);
        proof {
            assert(node_well_formed(node, old_nodes.len() as int, width));
            assert forall|k: int| 0 <= k < nodes@.len() implies #[trigger] node_well_formed(nodes@[k], k, width) by {
                if k < old_nodes.len() {
                    assert(nodes@[k] == old_nodes[k]);
                }
            }
        }
        placed += 1;
    }
    let output = nodes.len() - 1;
    let depth = depths[output];
    proof {
        assert(target == grow_circuit(nodes@, depths@, rng.state, 0));
    }
    let ghost final_nodes = nodes@;
    let circuit = match BooleanCircuit::new(input_width, nodes, vec![output]) {
        Ok(circuit) => circuit,
        Err(e) => {
            return Err(BaselineError::Circuit(e));
        },
    };
    proof {
        assert(circuit.spec_outputs() =~= seq![(final_nodes.len() - 1) as usize]);
    }
    Ok((circuit, depth))
}

/// Exact truth table of the circuit's first output as a Boolean function.
///
/// # Errors
///
/// Wraps a function-construction failure as [`BaselineError::Function`].
fn circuit_to_function(circuit: &BooleanCircuit) -> (result: Result<BooleanFunction, BaselineError>)
    requires
        circuit.spec_input_width() >= 1,
    ensures
        result matches Ok(function) && function.input_width() == circuit.spec_input_width()
            && function.table() == output_table(
            circuit.spec_nodes(),
            circuit.spec_input_width(),
            circuit.spec_outputs()[0] as int,
        ),
{
    let table = circuit.first_output_table();
    let width = circuit.input_width();
    proof {
        assert forall|i: int| 0 <= i < table@.len() implies #[trigger] table@[i] <= 1 by {}
    }
    match BooleanFunction::new(width as u32, table) {
        Ok(function) => Ok(function),
        Err(e) => Err(BaselineError::Function(e)),
    }
}

/// Number of gate counts the campaign draws from.
pub open spec fn gate_budget(config: BaselineConfig) -> nat {
    (config.max_gates - config.min_gates + 1) as nat
}

/// One campaign step from `state`: the truth table, gate count and depth of
/// the drawn circuit, and the state afterwards.
pub open spec fn candidate_spec(config: BaselineConfig, state: u64) -> (Seq<u8>, usize, usize, u64) {
    let width = config.input_bits as nat;
    let gates = config.min_gates + sm_draw(state, gate_budget(config));
    let drawn = random_circuit_spec(width, gates as nat, sm_advance(state));
    (output_table(drawn.0, width, drawn.0.len() - 1), gates as usize, drawn.1, drawn.2)
}

/// The population after `remaining` more steps from `state`, keeping the
/// first occurrence of each truth table as (table, gate count, depth).
pub open spec fn campaign(
    config: BaselineConfig,
    state: u64,
    remaining: nat,
    population: Seq<(Seq<u8>, usize, usize)>,
) -> Seq<(Seq<u8>, usize, usize)>
    decreases remaining,
{
    if remaining == 0 {
        population
    } else {
        let drawn = candidate_spec(config, state);
        let seen = exists|i: int| 0 <= i < population.len() && #[trigger] population[i].0 == drawn.0;
        campaign(
            config,
            drawn.3,
            (remaining - 1) as nat,
            if seen {
                population
            } else {
                population.push((drawn.0, drawn.1, drawn.2))
            },
        )
    }
}

/// The deduplicated population of the whole campaign.
#[verifier::opaque]
pub open spec fn baseline_population(config: BaselineConfig) -> Seq<(Seq<u8>, usize, usize)> {
    campaign(config, config.seed, config.candidates as nat, Seq::empty())
}

/// A drawn circuit has between `min_gates` and `max_gates` gates, and its
/// depth is at most its gate count.
proof fn lemma_candidate_bounds(config: BaselineConfig, state: u64)
    requires
        config_valid(config),
        config.max_gates < usize::MAX - 64,
    ensures
        config.min_gates <= candidate_spec(config, state).1 <= config.max_gates,
        candidate_spec(config, state).2 <= candidate_spec(config, state).1,
{
    let width = config.input_bits as nat;
    let gates = config.min_gates + sm_draw(state, gate_budget(config));
    assert(sm_draw(state, gate_budget(config)) < gate_budget(config));
    let nodes = initial_nodes(width);
    let depths = initial_depths(width);
    assert(nodes_well_formed(nodes, width)) by {
        assert forall|k: int| 0 <= k < nodes.len() implies #[trigger] node_well_formed(nodes[k], k, width) by {
            if k < width {
                assert(nodes[k] == Node::Input(k as usize));
            }
        }
    }
    lemma_grow_shape(nodes, depths, sm_advance(state), gates as nat, width, 0);
    let grown = grow_circuit(nodes, depths, sm_advance(state), gates as nat);
    assert(grown.1[grown.1.len() - 1] <= gates);
}

/// The bounds of a valid configuration on gate count and depth hold of every
/// entry of a campaign whenever they hold of its starting entries.
#[verifier::rlimit(40)]
proof fn lemma_campaign_bounds(
    config: BaselineConfig,
    state: u64,
    remaining: nat,
    population: Seq<(Seq<u8>, usize, usize)>,
)
    requires
        config_valid(config),
        config.max_gates < usize::MAX - 64,
        forall|i: int| 0 <= i < population.len() ==> config.min_gates <= #[trigger] population[i].1 <= config.max_gates
            && population[i].2 <= population[i].1,
    ensures
        forall|i: int| 0 <= i < campaign(config, state, remaining, population).len() ==> config.min_gates
            <= #[trigger] campaign(config, state, remaining, population)[i].1 <= config.max_gates
            && campaign(config, state, remaining, population)[i].2 <= campaign(config, state, remaining, population)[i].1,
    decreases remaining,
{
    if remaining > 0 {
        let drawn = candidate_spec(config, state);
        lemma_candidate_bounds(config, state);
        let seen = exists|i: int| 0 <= i < population.len() && #[trigger] population[i].0 == drawn.0;
        let next = if seen {
            population
        } else {
            population.push((drawn.0, drawn.1, drawn.2))
        };
        assert forall|i: int| 0 <= i < next.len() implies config.min_gates <= #[trigger] next[i].1 <= config.max_gates
            && next[i].2 <= next[i].1 by {
            if i < population.len() {
                assert(next[i] == population[i]);
            }
        }
        lemma_campaign_bounds(config, drawn.3, (remaining - 1) as nat, next);
        assert(campaign(config, state, remaining, population) == campaign(config, drawn.3, (remaining - 1) as nat, next));
    }
}

/// Every circuit kept by the campaign of a valid configuration has between
/// `min_gates` and `max_gates` gates, and a depth at most its gate count.
pub proof fn lemma_population_gate_bounds(config: BaselineConfig)
    requires
        config_valid(config),
        config.max_gates < usize::MAX - 64,
    ensures
        forall|i: int| 0 <= i < baseline_population(config).len() ==> config.min_gates
            <= #[trigger] baseline_population(config)[i].1 <= config.max_gates && baseline_population(config)[i].2
            <= baseline_population(config)[i].1,
{
    reveal(baseline_population);
    lemma_campaign_bounds(config, config.seed, config.candidates as nat, Seq::empty());
}

/// `|ones - rows / 2|` for a truth table.
pub open spec fn imbalance_of(t: Seq<u8>) -> int {
    let ones = ones_upto(t, t.len());
    let half = (t.len() / 2) as int;
    if ones >= half {
        ones - half
    } else {
        half - ones
    }
}

/// `r` is the record of population entry `e` over `width` inputs.
pub open spec fn record_of_entry(r: BaselineRecord, width: nat, e: (Seq<u8>, usize, usize)) -> bool {
    &&& r.function.input_width() == width
    &&& r.function.table() == e.0
    &&& r.gate_count == e.1
    &&& r.depth == e.2
    &&& r.metrics == metrics_of(width, e.0)
    &&& r.imbalance == imbalance_of(e.0)
}

/// The configuration is accepted.
pub open spec fn config_valid(config: BaselineConfig) -> bool {
    &&& config.candidates > 0
    &&& 1 <= config.min_gates <= config.max_gates
    &&& 1 <= config.input_bits <= MAX_EXACT_INPUT_BITS
}

/// The error for a rejected configuration, checks taken in order.
pub open spec fn config_error(config: BaselineConfig) -> BaselineError {
    if config.candidates == 0 {
        BaselineError::ZeroCandidates
    } else if config.min_gates == 0 || config.min_gates > config.max_gates {
        BaselineError::InvalidGateRange { min_gates: config.min_gates, max_gates: config.max_gates }
    } else {
        BaselineError::InputWidth { width: config.input_bits, maximum: MAX_EXACT_INPUT_BITS }
    }
}

/// Rejects an empty campaign, an invalid gate range and an input width
/// outside `1..=MAX_EXACT_INPUT_BITS`.
pub fn validate_config(config: BaselineConfig) -> (result: Result<(), BaselineError>)
    ensures
        result is Ok <==> config_valid(config),
        !config_valid(config) ==> result == Err::<(), BaselineError>(config_error(config)),
{
    if config.candidates == 0 {
        return Err(BaselineError::ZeroCandidates);
    }
    if config.min_gates == 0 || config.min_gates > config.max_gates {
        return Err(
            BaselineError::InvalidGateRange { min_gates: config.min_gates, max_gates: config.max_gates },
        );
    }
    if config.input_bits == 0 || config.input_bits as usize > MAX_EXACT_INPUT_BITS {
        return Err(BaselineError::InputWidth { width: config.input_bits, maximum: MAX_EXACT_INPUT_BITS });
    }
    Ok(())
}

/// `|ones - rows / 2|` of a truth table.
fn table_imbalance(table: &[u8]) -> (imbalance: usize)
    ensures
        imbalance == imbalance_of(table@),
{
    let mut ones: usize = 0;
    let mut x: usize = 0;
    while x < table.len()
        invariant
            x <= table@.len(),
            ones <= x,
            ones == ones_upto(table@, x as nat),
        decreases table@.len() - x,
    {
        if table[x] != 0 {
            ones += 1;
        }
        x += 1;
    }
    let half = table.len() / 2;
    if ones >= half {
        ones - half
    } else {
        half - ones
    }
}

/// `left` is no worse than `right` in every objective and strictly better in one:
/// higher nonlinearity, lower imbalance, higher correlation immunity, fewer
/// gates, lower depth.
pub open spec fn record_dominates(left: BaselineRecord, right: BaselineRecord) -> bool {
    let no_worse = left.metrics.nonlinearity >= right.metrics.nonlinearity && left.imbalance
        <= right.imbalance && left.metrics.correlation_immunity >= right.metrics.correlation_immunity
        && left.gate_count <= right.gate_count && left.depth <= right.depth;
    let strictly_better = left.metrics.nonlinearity > right.metrics.nonlinearity || left.imbalance
        < right.imbalance || left.metrics.correlation_immunity > right.metrics.correlation_immunity
        || left.gate_count < right.gate_count || left.depth < right.depth;
    no_worse && strictly_better
}

/// Whether `left` Pareto-dominates `right`.
pub fn dominates(left: &BaselineRecord, right: &BaselineRecord) -> (result: bool)
    ensures
        result == record_dominates(*left, *right),
{
    let no_worse = left.metrics.nonlinearity >= right.metrics.nonlinearity && left.imbalance
        <= right.imbalance && left.metrics.correlation_immunity >= right.metrics.correlation_immunity
        && left.gate_count <= right.gate_count && left.depth <= right.depth;
    let strictly_better = left.metrics.nonlinearity > right.metrics.nonlinearity || left.imbalance
        < right.imbalance || left.metrics.correlation_immunity > right.metrics.correlation_immunity
        || left.gate_count < right.gate_count || left.depth < right.depth;
    no_worse && strictly_better
}

/// A score that every dominating record strictly lowers.
pub open spec fn record_score(r: BaselineRecord) -> int {
    r.imbalance + r.gate_count + r.depth - r.metrics.nonlinearity - r.metrics.correlation_immunity
}

/// Dominance is transitive and lowers the score.
pub proof fn lemma_dominance_order(a: BaselineRecord, b: BaselineRecord, c: BaselineRecord)
    ensures
        record_dominates(a, b) ==> record_score(a) < record_score(b),
        !record_dominates(a, a),
        record_dominates(a, b) && record_dominates(b, c) ==> record_dominates(a, c),
{
}

/// No record of `recs[0..m]` dominates record `i`.
pub open spec fn undominated_in(recs: Seq<BaselineRecord>, m: int, i: int) -> bool {
    forall|j: int| 0 <= j < m ==> !#[trigger] record_dominates(recs[j], recs[i])
}

/// `front` lists, in increasing order, exactly the undominated indices of `recs[0..m]`.
pub open spec fn is_front(recs: Seq<BaselineRecord>, m: int, front: Seq<usize>) -> bool {
    &&& forall|k: int| 0 <= k < front.len() ==> #[trigger] front[k] < m && undominated_in(recs, m, front[k] as int)
    &&& forall|k: int, l: int| 0 <= k < l < front.len() ==> #[trigger] front[k] < #[trigger] front[l]
    &&& forall|i: int| 0 <= i < m && #[trigger] undominated_in(recs, m, i) ==> exists|k: int| 0 <= k < front.len() && #[trigger] front[k] == i
}

/// Pareto dominance over the five baseline objectives (nonlinearity up,
/// imbalance down, correlation immunity up, gate count down, depth down):
/// `left` dominates `right` exactly when it is no worse in all five and
/// strictly better in at least one, so a strict gain in any single objective
/// without a loss elsewhere is dominance.
pub proof fn lemma_record_dominance_is_pareto(left: BaselineRecord, right: BaselineRecord)
    ensures
        ({
            let no_worse = left.metrics.nonlinearity >= right.metrics.nonlinearity && left.imbalance
                <= right.imbalance && left.metrics.correlation_immunity >= right.metrics.correlation_immunity
                && left.gate_count <= right.gate_count && left.depth <= right.depth;
            &&& record_dominates(left, right) ==> no_worse
            &&& record_dominates(left, right) ==> left.metrics.nonlinearity > right.metrics.nonlinearity
                || left.imbalance < right.imbalance || left.metrics.correlation_immunity
                > right.metrics.correlation_immunity || left.gate_count < right.gate_count || left.depth
                < right.depth
            &&& no_worse && left.metrics.nonlinearity > right.metrics.nonlinearity ==> record_dominates(left, right)
            &&& no_worse && left.imbalance < right.imbalance ==> record_dominates(left, right)
            &&& no_worse && left.metrics.correlation_immunity > right.metrics.correlation_immunity ==> record_dominates(
                left,
                right,
            )
            &&& no_worse && left.gate_count < right.gate_count ==> record_dominates(left, right)
            &&& no_worse && left.depth < right.depth ==> record_dominates(left, right)
            &&& !record_dominates(left, left)
        }),
{
}

/// Among the dominators of `x` in `recs[0..k]`, one of least score.
proof fn lemma_min_score_dominator(recs: Seq<BaselineRecord>, x: int, k: int) -> (best: int)
    requires
        0 < k <= recs.len(),
        0 <= x < recs.len(),
        exists|j: int| 0 <= j < k && #[trigger] record_dominates(recs[j], recs[x]),
    ensures
        0 <= best < k,
        record_dominates(recs[best], recs[x]),
        forall|j: int| 0 <= j < k && #[trigger] record_dominates(recs[j], recs[x]) ==> record_score(recs[best]) <= record_score(recs[j]),
    decreases k,
{
    if exists|j: int| 0 <= j < k - 1 && #[trigger] record_dominates(recs[j], recs[x]) {
        let b = lemma_min_score_dominator(recs, x, k - 1);
        if record_dominates(recs[k - 1], recs[x]) && record_score(recs[k - 1]) < record_score(recs[b]) {
            k - 1
        } else {
            b
        }
    } else {
        k - 1
    }
}

/// A dominated record of `recs[0..m]` is dominated by an undominated one.
pub proof fn lemma_dominated_by_undominated(recs: Seq<BaselineRecord>, m: int, x: int)
    requires
        0 <= x < m <= recs.len(),
        !undominated_in(recs, m, x),
    ensures
        exists|y: int| 0 <= y < m && undominated_in(recs, m, y) && #[trigger] record_dominates(recs[y], recs[x]),
{
    let best = lemma_min_score_dominator(recs, x, m);
    assert forall|z: int| 0 <= z < m implies !#[trigger] record_dominates(recs[z], recs[best]) by {
        if record_dominates(recs[z], recs[best]) {
            lemma_dominance_order(recs[z], recs[best], recs[x]);
            lemma_dominance_order(recs[best], recs[x], recs[x]);
        }
    }
    assert(undominated_in(recs, m, best));
}

/// Adds record `n` to the front of `recs[0..n]`, giving the front of `recs[0..n+1]`.
fn update_pareto_front(front: &mut Vec<usize>, recs: &[BaselineRecord], n: usize)
    requires
        n < recs@.len(),
        is_front(recs@, n as int, old(front)@),
    ensures
        is_front(recs@, n + 1, final(front)@),
{
    let ghost r = recs@;
    let mut k: usize = 0;
    while k < front.len()
        invariant
            r == recs@,
            n < r.len(),
            is_front(r, n as int, front@),
            k <= front@.len(),
            forall|l: int| 0 <= l < k ==> !#[trigger] record_dominates(r[front@[l] as int], r[n as int]),
        decreases front@.len() - k,
    {
        if dominates(&recs[front[k]], &recs[n]) {
            proof {
                let f = front@[k as int] as int;
                assert(record_dominates(r[f], r[n as int]));
                assert forall|i: int| 0 <= i < n + 1 && #[trigger] undominated_in(r, n + 1, i) implies exists|l: int|
                    0 <= l < front@.len() && #[trigger] front@[l] == i by {
                    if i == n {
                        assert(!undominated_in(r, n + 1, i));
                    } else {
                        assert(undominated_in(r, n as int, i));
                    }
                }
                assert forall|l: int| 0 <= l < front@.len() implies #[trigger] front@[l] < n + 1
                    && undominated_in(r, n + 1, front@[l] as int) by {
                    let g = front@[l] as int;
                    assert(undominated_in(r, n as int, g));
                    if record_dominates(r[n as int], r[g]) {
                        lemma_dominance_order(r[f], r[n as int], r[g]);
                    }
                }
            }
            return;
        }
        k += 1;
    }
    proof {
        assert forall|j: int| 0 <= j < n + 1 implies !#[trigger] record_dominates(r[j], r[n as int]) by {
            if j == n {
                lemma_dominance_order(r[j], r[j], r[j]);
            } else if record_dominates(r[j], r[n as int]) {
                if undominated_in(r, n as int, j) {
                    let l = choose|l: int| 0 <= l < front@.len() && #[trigger] front@[l] == j;
                } else {
                    lemma_dominated_by_undominated(r, n as int, j);
                    let y = choose|y: int| 0 <= y < n && undominated_in(r, n as int, y) && #[trigger] record_dominates(r[y], r[j]);
                    lemma_dominance_order(r[y], r[j], r[n as int]);
                    let l = choose|l: int| 0 <= l < front@.len() && #[trigger] front@[l] == y;
                }
            }
        }
    }
    let mut kept: Vec<usize> = Vec::new();
    let mut k: usize = 0;
    while k < front.len()
        invariant
            r == recs@,
            n < r.len(),
            is_front(r, n as int, front@),
            undominated_in(r, n + 1, n as int),
            k <= front@.len(),
            forall|l: int| 0 <= l < kept@.len() ==> #[trigger] kept@[l] < n && undominated_in(r, n + 1, kept@[l] as int),
            forall|l: int, q: int| 0 <= l < q < kept@.len() ==> #[trigger] kept@[l] < #[trigger] kept@[q],
            forall|l: int| #![trigger kept@[l]] 0 <= l < kept@.len() ==> exists|q: int| 0 <= q < k && #[trigger] front@[q] == kept@[l],
            forall|q: int| 0 <= q < k && #[trigger] undominated_in(r, n + 1, front@[q] as int) ==> exists|l: int|
                0 <= l < kept@.len() && #[trigger] kept@[l] == front@[q],
        decreases front@.len() - k,
    {
        let ghost before = kept@;
        if !dominates(&recs[n], &recs[front[k]]) {
            kept.push(front[k]);
            proof {
                let g = front@[k as int] as int;
                assert(undominated_in(r, n as int, g));
                assert(undominated_in(r, n + 1, g));
                assert forall|l: int, q: int| 0 <= l < q < kept@.len() implies #[trigger] kept@[l] < #[trigger] kept@[q] by {
                    if q == kept@.len() - 1 {
                        let q0 = choose|q0: int| 0 <= q0 < k && #[trigger] front@[q0] == kept@[l];
                    }
                }
                assert forall|l: int| #![trigger kept@[l]] 0 <= l < kept@.len() implies exists|q: int| 0 <= q < k + 1 && #[trigger] front@[q] == kept@[l] by {
                    if l < before.len() {
                        let q0 = choose|q0: int| 0 <= q0 < k && #[trigger] front@[q0] == before[l];
                        assert(front@[q0] == kept@[l]);
                    } else {
                        assert(front@[k as int] == kept@[l]);
                    }
                }
                assert forall|q: int| 0 <= q < k + 1 && #[trigger] undominated_in(r, n + 1, front@[q] as int) implies exists|l: int|
                    0 <= l < kept@.len() && #[trigger] kept@[l] == front@[q] by {
                    if q < k {
                        let l0 = choose|l0: int| 0 <= l0 < before.len() && #[trigger] before[l0] == front@[q];
                        assert(kept@[l0] == front@[q]);
                    } else {
                        assert(kept@[before.len() as int] == front@[q]);
                    }
                }
            }
        } else {
            proof {
                assert(!undominated_in(r, n + 1, front@[k as int] as int));
                assert forall|l: int| #![trigger kept@[l]] 0 <= l < kept@.len() implies exists|q: int| 0 <= q < k + 1 && #[trigger] front@[q] == kept@[l] by {
                    let q0 = choose|q0: int| 0 <= q0 < k && #[trigger] front@[q0] == kept@[l];
                }
            }
        }
        k += 1;
    }
    let ghost before = kept@;
    kept.push(n);
    proof {
        assert forall|i: int| 0 <= i < n + 1 && #[trigger] undominated_in(r, n + 1, i) implies exists|l: int|
            0 <= l < kept@.len() && #[trigger] kept@[l] == i by {
            if i == n {
                assert(kept@[before.len() as int] == i);
            } else {
                assert(undominated_in(r, n as int, i));
                let q = choose|q: int| 0 <= q < front@.len() && #[trigger] front@[q] == i;
                let l = choose|l: int| 0 <= l < before.len() && #[trigger] before[l] == front@[q];
                assert(kept@[l] == i);
            }
        }
        assert forall|l: int| 0 <= l < kept@.len() implies #[trigger] kept@[l] < n + 1 && undominated_in(r, n + 1, kept@[l] as int) by {
            if l < before.len() {
                assert(kept@[l] == before[l]);
            }
        }
        assert forall|l: int, q: int| 0 <= l < q < kept@.len() implies #[trigger] kept@[l] < #[trigger] kept@[q] by {
            if q < before.len() {
                assert(kept@[l] == before[l] && kept@[q] == before[q]);
            } else {
                assert(kept@[l] == before[l]);
            }
        }
    }
    *front = kept;
}

/// The fingerprint of a record's function.
pub open spec fn record_fingerprint(r: BaselineRecord) -> u64 {
    function_fingerprint(r.function.input_width() as u32, r.function.table())
}

/// Report order of the front: higher nonlinearity, lower imbalance, higher
/// correlation immunity, fewer gates, lower depth, smaller fingerprint, then
/// earlier generation.
pub open spec fn front_order_less(a: BaselineRecord, ia: int, b: BaselineRecord, ib: int) -> bool {
    if a.metrics.nonlinearity != b.metrics.nonlinearity {
        a.metrics.nonlinearity > b.metrics.nonlinearity
    } else if a.imbalance != b.imbalance {
        a.imbalance < b.imbalance
    } else if a.metrics.correlation_immunity != b.metrics.correlation_immunity {
        a.metrics.correlation_immunity > b.metrics.correlation_immunity
    } else if a.gate_count != b.gate_count {
        a.gate_count < b.gate_count
    } else if a.depth != b.depth {
        a.depth < b.depth
    } else if record_fingerprint(a) != record_fingerprint(b) {
        record_fingerprint(a) < record_fingerprint(b)
    } else {
        ia < ib
    }
}

/// Front position `p` precedes front position `q` in report order.
pub open spec fn position_less(recs: Seq<BaselineRecord>, front: Seq<usize>, p: int, q: int) -> bool {
    front_order_less(recs[front[p] as int], front[p] as int, recs[front[q] as int], front[q] as int)
}

/// The report order is a strict total order on distinct generation indices.
proof fn lemma_front_order(a: BaselineRecord, ia: int, b: BaselineRecord, ib: int, c: BaselineRecord, ic: int)
    ensures
        !front_order_less(a, ia, a, ia),
        ia != ib ==> front_order_less(a, ia, b, ib) || front_order_less(b, ib, a, ia),
        front_order_less(a, ia, b, ib) && front_order_less(b, ib, c, ic) ==> front_order_less(a, ia, c, ic),
{
}

/// Whether front position `p` precedes position `q`.
fn position_precedes(recs: &[BaselineRecord], fingerprints: &[u64], front: &[usize], p: usize, q: usize) -> (less: bool)
    requires
        p < front@.len(),
        q < front@.len(),
        fingerprints@.len() == front@.len(),
        forall|k: int| 0 <= k < front@.len() ==> #[trigger] front@[k] < recs@.len(),
        forall|k: int| 0 <= k < front@.len() ==> #[trigger] fingerprints@[k] == record_fingerprint(recs@[front@[k] as int]),
    ensures
        less == position_less(recs@, front@, p as int, q as int),
{
    let a = &recs[front[p]];
    let b = &recs[front[q]];
    if a.metrics.nonlinearity != b.metrics.nonlinearity {
        a.metrics.nonlinearity > b.metrics.nonlinearity
    } else if a.imbalance != b.imbalance {
        a.imbalance < b.imbalance
    } else if a.metrics.correlation_immunity != b.metrics.correlation_immunity {
        a.metrics.correlation_immunity > b.metrics.correlation_immunity
    } else if a.gate_count != b.gate_count {
        a.gate_count < b.gate_count
    } else if a.depth != b.depth {
        a.depth < b.depth
    } else if fingerprints[p] != fingerprints[q] {
        fingerprints[p] < fingerprints[q]
    } else {
        front[p] < front[q]
    }
}

/// Position `p` occurs in `order`.
pub open spec fn placed(order: Seq<usize>, p: int) -> bool {
    exists|k: int| 0 <= k < order.len() && #[trigger] order[k] == p
}

/// `order` lists the front positions in strictly increasing report order, each exactly once.
pub open spec fn sorted_positions(recs: Seq<BaselineRecord>, front: Seq<usize>, order: Seq<usize>) -> bool {
    &&& forall|k: int| 0 <= k < order.len() ==> #[trigger] order[k] < front.len()
    &&& forall|k: int, l: int| 0 <= k < l < order.len() ==> position_less(recs, front, #[trigger] order[k] as int, #[trigger] order[l] as int)
    &&& forall|p: int| 0 <= p < front.len() ==> #[trigger] placed(order, p)
}

/// Position `q` comes after the last position placed so far.
pub open spec fn still_to_place(recs: Seq<BaselineRecord>, front: Seq<usize>, order: Seq<usize>, q: int) -> bool {
    order.len() == 0 || position_less(recs, front, order.last() as int, q)
}

/// Positions of distinct generation indices compare one way or the other.
proof fn lemma_position_total(recs: Seq<BaselineRecord>, front: Seq<usize>, p: int, q: int, t: int)
    requires
        0 <= p < front.len(),
        0 <= q < front.len(),
        0 <= t < front.len(),
        forall|k: int, l: int| 0 <= k < l < front.len() ==> #[trigger] front[k] < #[trigger] front[l],
    ensures
        !position_less(recs, front, p, p),
        p != q ==> position_less(recs, front, p, q) || position_less(recs, front, q, p),
        position_less(recs, front, p, q) && position_less(recs, front, q, t) ==> position_less(recs, front, p, t),
{
    if p < q {
        assert(front[p] < front[q]);
    } else if q < p {
        assert(front[q] < front[p]);
    }
    lemma_front_order(
        recs[front[p] as int],
        front[p] as int,
        recs[front[q] as int],
        front[q] as int,
        recs[front[t] as int],
        front[t] as int,
    );
}

/// Placing `q`, the least position still to place, extends the placed set to
/// exactly the positions not after `q`.
proof fn lemma_place_next(recs: Seq<BaselineRecord>, front: Seq<usize>, before: Seq<usize>, q: usize, p: int)
    requires
        q < front.len(),
        0 <= p < front.len(),
        forall|k: int| 0 <= k < before.len() ==> #[trigger] before[k] < front.len(),
        forall|k: int, l: int| 0 <= k < l < front.len() ==> #[trigger] front[k] < #[trigger] front[l],
        still_to_place(recs, front, before, q as int),
        forall|x: int| 0 <= x < front.len() && #[trigger] still_to_place(recs, front, before, x) ==> x == q || position_less(recs, front, q as int, x),
        before.len() > 0 ==> (placed(before, p) <==> !position_less(recs, front, before.last() as int, p)),
        before.len() == 0 ==> !placed(before, p),
    ensures
        placed(before.push(q), p) <==> !position_less(recs, front, q as int, p),
{
    let after = before.push(q);
    lemma_position_total(recs, front, q as int, p, q as int);
    if before.len() > 0 {
        let last = before.last() as int;
        lemma_position_total(recs, front, last, q as int, p);
    }
    if placed(after, p) {
        let k = choose|k: int| 0 <= k < after.len() && #[trigger] after[k] == p;
        if k < before.len() {
            assert(before[k] == p);
            assert(placed(before, p));
        }
    } else {
        assert(after[before.len() as int] == q);
        if p != q {
            if before.len() > 0 {
                assert(!placed(before, p)) by {
                    if placed(before, p) {
                        let k = choose|k: int| 0 <= k < before.len() && #[trigger] before[k] == p;
                        assert(after[k] == p);
                    }
                }
            }
            assert(still_to_place(recs, front, before, p));
        }
    }
}

/// Orders the front positions by report order (a selection sort).
fn sort_front(recs: &[BaselineRecord], front: &[usize]) -> (order: Vec<usize>)
    requires
        forall|k: int| 0 <= k < front@.len() ==> #[trigger] front@[k] < recs@.len(),
        forall|k: int, l: int| 0 <= k < l < front@.len() ==> #[trigger] front@[k] < #[trigger] front@[l],
    ensures
        sorted_positions(recs@, front@, order@),
{
    let ghost r = recs@;
    let ghost fr = front@;
    let f = front.len();
    let mut fingerprints: Vec<u64> = Vec::new();
    let mut i: usize = 0;
    while i < f
        invariant
            f == fr.len(),
            fr == front@,
            r == recs@,
            forall|k: int| 0 <= k < fr.len() ==> #[trigger] fr[k] < r.len(),
            i <= f,
            fingerprints@.len() == i,
            forall|k: int| 0 <= k < i ==> #[trigger] fingerprints@[k] == record_fingerprint(r[fr[k] as int]),
        decreases f - i,
    {
        fingerprints.push(recs[front[i]].function.stable_fingerprint());
        i += 1;
    }
    let mut order: Vec<usize> = Vec::new();
    loop
        invariant
            f == fr.len(),
            fr == front@,
            r == recs@,
            forall|k: int| 0 <= k < fr.len() ==> #[trigger] fr[k] < r.len(),
            forall|k: int, l: int| 0 <= k < l < fr.len() ==> #[trigger] fr[k] < #[trigger] fr[l],
            fingerprints@.len() == f,
            forall|k: int| 0 <= k < f ==> #[trigger] fingerprints@[k] == record_fingerprint(r[fr[k] as int]),
            forall|k: int| 0 <= k < order@.len() ==> #[trigger] order@[k] < f,
            forall|k: int, l: int| 0 <= k < l < order@.len() ==> position_less(r, fr, #[trigger] order@[k] as int, #[trigger] order@[l] as int),
            order@.len() > 0 ==> forall|p: int|
                #![trigger placed(order@, p)]
                #![trigger position_less(r, fr, order@.last() as int, p)]
                0 <= p < f ==> (placed(order@, p) <==> !position_less(r, fr, order@.last() as int, p)),
            order@.len() <= f,
        ensures
            sorted_positions(r, fr, order@),
        decreases f - order@.len(),
    {
        let mut best: Option<usize> = None;
        let mut p: usize = 0;
        while p < f
            invariant
                f == fr.len(),
                fr == front@,
                r == recs@,
                forall|k: int| 0 <= k < fr.len() ==> #[trigger] fr[k] < r.len(),
                forall|k: int, l: int| 0 <= k < l < fr.len() ==> #[trigger] fr[k] < #[trigger] fr[l],
                fingerprints@.len() == f,
                forall|k: int| 0 <= k < f ==> #[trigger] fingerprints@[k] == record_fingerprint(r[fr[k] as int]),
                forall|k: int| 0 <= k < order@.len() ==> #[trigger] order@[k] < f,
                p <= f,
                best matches Some(b) ==> b < p && still_to_place(r, fr, order@, b as int),
                best matches Some(b) ==> forall|q: int| 0 <= q < p && #[trigger] still_to_place(r, fr, order@, q) ==> q == b || position_less(r, fr, b as int, q),
                best is None ==> forall|q: int| 0 <= q < p ==> !#[trigger] still_to_place(r, fr, order@, q),
            decreases f - p,
        {
            let eligible = if order.len() == 0 {
                true
            } else {
                position_precedes(recs, fingerprints.as_slice(), front, order[order.len() - 1], p)
            };
            proof {
                assert(eligible == still_to_place(r, fr, order@, p as int));
            }
            if eligible {
                let replace = match best {
                    None => true,
                    Some(b) => position_precedes(recs, fingerprints.as_slice(), front, p, b),
                };
                if replace {
                    proof {
                        if best is Some {
                            let b = best->0 as int;
                            assert forall|q: int| 0 <= q < p + 1 && #[trigger] still_to_place(r, fr, order@, q) implies q == p || position_less(r, fr, p as int, q) by {
                                if q != p && q != b {
                                    lemma_position_total(r, fr, p as int, b, q);
                                }
                            }
                        }
                    }
                    best = Some(p);
                } else {
                    proof {
                        let b = best->0 as int;
                        lemma_position_total(r, fr, p as int, b, b);
                    }
                }
            }
            p += 1;
        }
        match best {
            None => {
                proof {
                    if order@.len() == 0 && f > 0 {
                        assert(still_to_place(r, fr, order@, 0));
                    }
                    assert forall|q: int| 0 <= q < f implies #[trigger] placed(order@, q) by {
                        assert(!still_to_place(r, fr, order@, q));
                    }
                }
                break;
            },
            Some(q) => {
                let ghost before = order@;
                proof {
                    if before.len() > 0 {
                        assert(!placed(before, q as int));
                        assert forall|k: int| 0 <= k < before.len() implies position_less(r, fr, #[trigger] before[k] as int, q as int) by {
                            let last = before.last() as int;
                            if k < before.len() - 1 {
                                lemma_position_total(r, fr, before[k] as int, last, q as int);
                            }
                        }
                        assert forall|k: int| 0 <= k < before.len() implies #[trigger] before[k] != q by {
                            if before[k] == q {
                                lemma_position_total(r, fr, q as int, q as int, q as int);
                            }
                        }
                    }
                }
                order.push(q);
                proof {
                    assert forall|k: int, l: int| 0 <= k < l < order@.len() implies position_less(r, fr, #[trigger] order@[k] as int, #[trigger] order@[l] as int) by {
                        if l < before.len() {
                            assert(order@[k] == before[k] && order@[l] == before[l]);
                        } else {
                            assert(order@[k] == before[k]);
                        }
                    }
                    assert forall|p2: int|
                        #![trigger placed(order@, p2)]
                        #![trigger position_less(r, fr, order@.last() as int, p2)]
                        0 <= p2 < f implies (placed(order@, p2) <==> !position_less(r, fr, order@.last() as int, p2)) by {
                        if before.len() == 0 {
                            assert(!placed(before, p2));
                        }
                        lemma_place_next(r, fr, before, q, p2);
                    }
                    assert forall|k: int, l: int| 0 <= k < l < order@.len() implies #[trigger] order@[k] != #[trigger] order@[l] by {
                        lemma_position_total(r, fr, order@[k] as int, order@[k] as int, order@[k] as int);
                    }
                    lemma_distinct_rows_bound(order@, f as int);
                }
            },
        }
    }
    order
}
/// The population entries (table, gate count, depth) of a list of records.
pub open spec fn record_entries(recs: Seq<BaselineRecord>) -> Seq<(Seq<u8>, usize, usize)> {
    recs.map_values(|r: BaselineRecord| (r.function.table(), r.gate_count, r.depth))
}

/// The deduplication keys (width, table) of a list of records.
pub open spec fn record_keys(recs: Seq<BaselineRecord>, width: nat) -> Seq<(nat, Seq<u8>)> {
    recs.map_values(|r: BaselineRecord| (width, r.function.table()))
}

/// Number of balanced records among the first `m`.
pub open spec fn count_balanced(recs: Seq<BaselineRecord>, m: nat) -> nat
    decreases m,
{
    if m == 0 {
        0
    } else {
        count_balanced(recs, (m - 1) as nat) + if recs[m - 1].metrics.balanced { 1nat } else { 0nat }
    }
}

/// Number of bent records among the first `m`.
pub open spec fn count_bent(recs: Seq<BaselineRecord>, m: nat) -> nat
    decreases m,
{
    if m == 0 {
        0
    } else {
        count_bent(recs, (m - 1) as nat) + if recs[m - 1].metrics.bent { 1nat } else { 0nat }
    }
}

/// Largest nonlinearity among the first `m` records, or zero.
pub open spec fn best_nonlinearity_upto(recs: Seq<BaselineRecord>, m: nat) -> u64
    decreases m,
{
    if m == 0 {
        0
    } else {
        let rest = best_nonlinearity_upto(recs, (m - 1) as nat);
        if recs[m - 1].metrics.nonlinearity > rest {
            recs[m - 1].metrics.nonlinearity
        } else {
            rest
        }
    }
}

/// Distinct values below `bound` number at most `bound`.
proof fn lemma_distinct_below_bound(s: Seq<usize>, bound: int)
    requires
        0 <= bound,
        forall|k: int| 0 <= k < s.len() ==> #[trigger] s[k] < bound,
        forall|k: int, l: int| 0 <= k < l < s.len() ==> #[trigger] s[k] != #[trigger] s[l],
    ensures
        s.len() <= bound,
{
    let t = s.map_values(|x: usize| x as int);
    assert(t.no_duplicates()) by {
        assert forall|k: int, l: int| 0 <= k < t.len() && 0 <= l < t.len() && k != l implies t[k] != t[l] by {
            if k < l {
                assert(s[k] != s[l]);
            } else {
                assert(s[l] != s[k]);
            }
        }
    }
    t.unique_seq_to_set();
    vstd::set_lib::lemma_int_range(0, bound);
    assert(t.to_set().subset_of(vstd::set_lib::set_int_range(0, bound))) by {
        assert forall|x: int| t.to_set().contains(x) implies vstd::set_lib::set_int_range(0, bound).contains(x) by {
            let k = choose|k: int| 0 <= k < t.len() && t[k] == x;
            assert(s[k] < bound);
        }
    }
    vstd::set_lib::lemma_len_subset(t.to_set(), vstd::set_lib::set_int_range(0, bound));
}

/// The report lists no more front records than the population holds.
proof fn lemma_front_report_bounded(recs: Seq<BaselineRecord>, front: Seq<usize>, order: Seq<usize>)
    requires
        is_front(recs, recs.len() as int, front),
        sorted_positions(recs, front, order),
    ensures
        order.len() <= recs.len(),
{
    assert forall|k: int, l: int| 0 <= k < l < order.len() implies #[trigger] order[k] != #[trigger] order[l] by {
        assert(position_less(recs, front, order[k] as int, order[l] as int));
        let p = order[k] as int;
        lemma_front_order(recs[front[p] as int], front[p] as int, recs[front[p] as int], front[p] as int, recs[front[p] as int], front[p] as int);
    }
    lemma_distinct_below_bound(order, front.len() as int);
    assert forall|k: int, l: int| 0 <= k < l < front.len() implies #[trigger] front[k] != #[trigger] front[l] by {
        assert(front[k] < front[l]);
    }
    lemma_distinct_below_bound(front, recs.len() as int);
}

/// `summary` is the exact result of the campaign of `config`.
pub open spec fn is_baseline_summary(config: BaselineConfig, summary: BaselineSummary) -> bool {
    let population = baseline_population(config);
    let recs = summary.population@;
    let width = config.input_bits as nat;
    &&& summary.config == config
    &&& summary.generated == config.candidates
    &&& recs.len() == population.len()
    &&& forall|i: int| 0 <= i < recs.len() ==> #[trigger] record_of_entry(recs[i], width, population[i])
    &&& summary.unique_functions == recs.len()
    &&& summary.balanced_functions == count_balanced(recs, recs.len())
    &&& summary.bent_functions == count_bent(recs, recs.len())
    &&& summary.best_nonlinearity == best_nonlinearity_upto(recs, recs.len())
    &&& exists|front: Seq<usize>, order: Seq<usize>|
        #![trigger is_front(recs, recs.len() as int, front), sorted_positions(recs, front, order)]
        {
            &&& is_front(recs, recs.len() as int, front)
            &&& sorted_positions(recs, front, order)
            &&& summary.pareto_front@.len() == order.len()
            &&& forall|k: int| 0 <= k < order.len() ==> #[trigger] same_record(summary.pareto_front@[k], recs[front[order[k] as int] as int])
        }
}

/// The Pareto front of a campaign summary lists no more records than its
/// population holds.
pub proof fn lemma_summary_front_bounded(config: BaselineConfig, summary: BaselineSummary)
    requires
        is_baseline_summary(config, summary),
    ensures
        summary.pareto_front@.len() <= summary.population@.len(),
{
    let recs = summary.population@;
    let (front, order): (Seq<usize>, Seq<usize>) = choose|front: Seq<usize>, order: Seq<usize>|
        #![trigger is_front(recs, recs.len() as int, front), sorted_positions(recs, front, order)]
        {
            &&& is_front(recs, recs.len() as int, front)
            &&& sorted_positions(recs, front, order)
            &&& summary.pareto_front@.len() == order.len()
            &&& forall|k: int| 0 <= k < order.len() ==> #[trigger] same_record(summary.pareto_front@[k], recs[front[order[k] as int] as int])
        };
    lemma_front_report_bounded(recs, front, order);
}

/// The front of a prefix does not depend on what follows the prefix.
proof fn lemma_front_prefix(recs: Seq<BaselineRecord>, x: BaselineRecord, m: int, front: Seq<usize>)
    requires
        0 <= m <= recs.len(),
        is_front(recs, m, front),
    ensures
        is_front(recs.push(x), m, front),
{
    let longer = recs.push(x);
    assert forall|i: int| 0 <= i < m implies undominated_in(longer, m, i) == undominated_in(recs, m, i) by {
        assert forall|j: int| 0 <= j < m implies longer[j] == recs[j] by {}
        assert(longer[i] == recs[i]);
        if undominated_in(recs, m, i) {
            assert forall|j: int| 0 <= j < m implies !#[trigger] record_dominates(longer[j], longer[i]) by {
                assert(longer[j] == recs[j]);
            }
        } else {
            let j = choose|j: int| 0 <= j < m && #[trigger] record_dominates(recs[j], recs[i]);
            assert(longer[j] == recs[j]);
            assert(record_dominates(longer[j], longer[i]));
        }
    }
}

/// Counts balanced and bent records and finds the best nonlinearity.
fn population_counts(recs: &[BaselineRecord]) -> (counts: (usize, usize, u64))
    ensures
        counts.0 == count_balanced(recs@, recs@.len()),
        counts.1 == count_bent(recs@, recs@.len()),
        counts.2 == best_nonlinearity_upto(recs@, recs@.len()),
{
    let mut balanced: usize = 0;
    let mut bent: usize = 0;
    let mut best: u64 = 0;
    let mut i: usize = 0;
    while i < recs.len()
        invariant
            i <= recs@.len(),
            balanced <= i,
            bent <= i,
            balanced == count_balanced(recs@, i as nat),
            bent == count_bent(recs@, i as nat),
            best == best_nonlinearity_upto(recs@, i as nat),
        decreases recs@.len() - i,
    {
        if recs[i].metrics.balanced {
            balanced += 1;
        }
        if recs[i].metrics.bent {
            bent += 1;
        }
        if recs[i].metrics.nonlinearity > best {
            best = recs[i].metrics.nonlinearity;
        }
        i += 1;
    }
    (balanced, bent, best)
}

/// Runs the deterministic Boolean-only circuit search and returns its exact
/// deduplicated population, counts and Pareto front.
///
/// Each of `candidates` draws picks a gate count in `min_gates..=max_gates`
/// and a random circuit of that many gates; only the first circuit of each
/// truth table is kept. The front holds the population's undominated records
/// (maximize nonlinearity, minimize imbalance, maximize correlation immunity,
/// minimize gates and depth), reported by decreasing nonlinearity, then
/// increasing imbalance, decreasing correlation immunity, increasing gates,
/// depth and fingerprint.
///
/// # Errors
///
/// [`BaselineError::ZeroCandidates`], [`BaselineError::InvalidGateRange`] and
/// [`BaselineError::InputWidth`] for a rejected configuration.
pub fn run_boolean_baseline(config: BaselineConfig) -> (result: Result<BaselineSummary, BaselineError>)
    requires
        config.max_gates < usize::MAX - 64,
    ensures
        !config_valid(config) ==> result == Err::<BaselineSummary, BaselineError>(config_error(config)),
        config_valid(config) ==> (result matches Ok(summary) && is_baseline_summary(config, summary)),
        result matches Ok(summary) ==> summary.pareto_front@.len() <= summary.population@.len(),
{
    match validate_config(config) {
        Err(e) => {
            return Err(e);
        },
        Ok(()) => {},
    }
    let width = config.input_bits;
    let ghost w = width as nat;
    let mut rng = SplitMix64::new(config.seed);
    let mut unique: Vec<BaselineRecord> = Vec::new();
    let mut index = DedupIndex::new();
    let mut front: Vec<usize> = Vec::new();
    let mut drawn: u32 = 0;
    proof {
        reveal(baseline_population);
        assert(record_entries(unique@) =~= Seq::<(Seq<u8>, usize, usize)>::empty());
        assert(record_keys(unique@, w) =~= Seq::<(nat, Seq<u8>)>::empty());
    }
    while drawn < config.candidates
        invariant
            config_valid(config),
            config.max_gates < usize::MAX - 64,
            width == config.input_bits,
            w == width,
            drawn <= config.candidates,
            campaign(config, rng.state, (config.candidates - drawn) as nat, record_entries(unique@))
                == baseline_population(config),
            forall|i: int| 0 <= i < unique@.len() ==> #[trigger] record_of_entry(unique@[i], w, record_entries(unique@)[i]),
            index.contents() == record_keys(unique@, w),
            is_front(unique@, unique@.len() as int, front@),
        decreases config.candidates - drawn,
    {
        let ghost state = rng.state;
        let budget = config.max_gates - config.min_gates + 1;
        let gate_count = config.min_gates + rng.bounded(budget);
        let (circuit, depth) = match random_circuit(width, gate_count, &mut rng) {
            Ok(built) => built,
            Err(e) => {
                return Err(e);
            },
        };
        let function = match circuit_to_function(&circuit) {
            Ok(function) => function,
            Err(e) => {
                return Err(e);
            },
        };
        let ghost step = candidate_spec(config, state);
        proof {
            assert(step.0 == function.table());
            assert(step.1 == gate_count);
            assert(step.2 == depth);
            assert(step.3 == rng.state);
        }
        let ghost entries = record_entries(unique@);
        let ghost seen = exists|i: int| 0 <= i < entries.len() && #[trigger] entries[i].0 == step.0;
        proof {
            assert(seen <==> index.contents().contains((w, function.table()))) by {
                if seen {
                    let i = choose|i: int| 0 <= i < entries.len() && #[trigger] entries[i].0 == step.0;
                    assert(index.contents()[i] == (w, function.table()));
                }
                if index.contents().contains((w, function.table())) {
                    let i = choose|i: int| 0 <= i < index.contents().len() && index.contents()[i] == (w, function.table());
                    assert(entries[i].0 == step.0);
                }
            }
        }
        let outcome = index.insert(function.clone());
        match outcome {
            DedupOutcome::Existing => {},
            DedupOutcome::New => {
                let metrics = function.exact_metrics();
                let imbalance = table_imbalance(function.truth_table());
                let record = BaselineRecord { function, metrics, gate_count, depth, imbalance };
                let n = unique.len();
                let ghost before = unique@;
                proof {
                    lemma_front_prefix(before, record, n as int, front@);
                }
                unique.push(record);
                update_pareto_front(&mut front, unique.as_slice(), n);
                proof {
                    assert(record_entries(unique@) =~= entries.push((step.0, step.1, step.2)));
                    assert(index.contents() =~= record_keys(unique@, w));
                    assert forall|i: int| 0 <= i < unique@.len() implies #[trigger] record_of_entry(unique@[i], w, record_entries(unique@)[i]) by {
                        if i < before.len() {
                            assert(unique@[i] == before[i]);
                            assert(record_entries(unique@)[i] == record_entries(before)[i]);
                        }
                    }
                }
            },
        }
        drawn += 1;
    }
    let counts = population_counts(unique.as_slice());
    let order = sort_front(unique.as_slice(), front.as_slice());
    let mut pareto_front: Vec<BaselineRecord> = Vec::new();
    let mut k: usize = 0;
    while k < order.len()
        invariant
            sorted_positions(unique@, front@, order@),
            is_front(unique@, unique@.len() as int, front@),
            k <= order@.len(),
            pareto_front@.len() == k,
            forall|l: int| 0 <= l < k ==> #[trigger] same_record(pareto_front@[l], unique@[front@[order@[l] as int] as int]),
        decreases order@.len() - k,
    {
        pareto_front.push(unique[front[order[k]]].clone());
        k += 1;
    }
    let summary = BaselineSummary {
        config,
        generated: config.candidates,
        unique_functions: unique.len(),
        balanced_functions: counts.0,
        bent_functions: counts.1,
        best_nonlinearity: counts.2,
        pareto_front,
        population: unique,
    };
    proof {
        assert(campaign(config, rng.state, 0, record_entries(summary.population@)) == baseline_population(config));
        assert forall|i: int| 0 <= i < summary.population@.len() implies #[trigger] record_of_entry(summary.population@[i], w, baseline_population(config)[i]) by {
            assert(record_of_entry(summary.population@[i], w, record_entries(summary.population@)[i]));
        }
        assert(is_front(summary.population@, summary.population@.len() as int, front@));
        assert(sorted_positions(summary.population@, front@, order@));
        lemma_front_report_bounded(summary.population@, front@, order@);
    }
    Ok(summary)
}

/// Absolute value.
pub open spec fn abs_int(x: int) -> int {
    if x < 0 {
        -x
    } else {
        x
    }
}

/// Three-valued plateaued: the Walsh spectrum holds zero, and every nonzero
/// coefficient has one common magnitude.
pub open spec fn is_three_valued_plateaued_table(t: Seq<u8>, n: nat) -> bool {
    &&& exists|a: int| 0 <= a < pow2(n) && #[trigger] walsh_coefficient(t, n, a) == 0
    &&& exists|a: int| 0 <= a < pow2(n) && #[trigger] walsh_coefficient(t, n, a) != 0
    &&& forall|a: int, b: int|
        0 <= a < pow2(n) && 0 <= b < pow2(n) && #[trigger] walsh_coefficient(t, n, a) != 0
            && #[trigger] walsh_coefficient(t, n, b) != 0 ==> abs_int(walsh_coefficient(t, n, a))
            == abs_int(walsh_coefficient(t, n, b))
}

/// Whether the Walsh spectrum is three-valued plateaued.
pub fn is_three_valued_plateaued(table: &[u8], input_bits: u32) -> (plateaued: bool)
    requires
        input_bits <= MAX_EXACT_BITS,
        table@.len() == pow2(input_bits as nat),
    ensures
        plateaued == is_three_valued_plateaued_table(table@, input_bits as nat),
{
    let ghost t = table@;
    let ghost n = input_bits as nat;
    let spectrum = walsh_hadamard(table, input_bits);
    let mut magnitude: Option<u64> = None;
    let mut saw_zero = false;
    let mut i: usize = 0;
    while i < spectrum.len()
        invariant
            t == table@,
            n == input_bits,
            n <= MAX_EXACT_BITS,
            spectrum@.len() == pow2(n),
            forall|a: int| 0 <= a < spectrum@.len() ==> #[trigger] spectrum@[a] == walsh_coefficient(t, n, a),
            i <= spectrum@.len(),
            saw_zero <==> exists|a: int| 0 <= a < i && #[trigger] walsh_coefficient(t, n, a) == 0,
            magnitude is None ==> forall|a: int| 0 <= a < i ==> #[trigger] walsh_coefficient(t, n, a) == 0,
            magnitude matches Some(m) ==> (exists|a: int| 0 <= a < i && #[trigger] walsh_coefficient(t, n, a) != 0 && abs_int(walsh_coefficient(t, n, a)) == m)
                && forall|a: int| 0 <= a < i && #[trigger] walsh_coefficient(t, n, a) != 0 ==> abs_int(walsh_coefficient(t, n, a)) == m,
        decreases spectrum@.len() - i,
    {
        let value = spectrum[i];
        proof {
            lemma_walsh_coefficient_bound(t, n, i as int);
            lemma_rows_bound(n);
        }
        let absolute: u64 = if value < 0 {
            (0 - value) as u64
        } else {
            value as u64
        };
        if absolute == 0 {
            saw_zero = true;
        } else {
            match magnitude {
                Some(expected) => {
                    if expected != absolute {
                        proof {
                            let a = choose|a: int| 0 <= a < i && #[trigger] walsh_coefficient(t, n, a) != 0 && abs_int(walsh_coefficient(t, n, a)) == expected;
                            assert(walsh_coefficient(t, n, i as int) != 0);
                        }
                        return false;
                    }
                },
                None => {
                    magnitude = Some(absolute);
                },
            }
        }
        i += 1;
    }
    saw_zero && magnitude.is_some()
}

/// Class counts of the first `m` four-input functions in code order:
/// (balanced, bent, resilient, plateaued, best nonlinearity, best balanced nonlinearity).
pub open spec fn four_variable_counts(m: nat) -> (nat, nat, nat, nat, u64, u64)
    decreases m,
{
    if m == 0 {
        (0, 0, 0, 0, 0, 0)
    } else {
        let rest = four_variable_counts((m - 1) as nat);
        let t = code_table(4, (m - 1) as nat);
        let x = metrics_of(4, t);
        let balanced = if x.balanced { 1nat } else { 0nat };
        let bent = if x.bent { 1nat } else { 0nat };
        let resilient = if x.balanced && x.correlation_immunity > 0 { 1nat } else { 0nat };
        let plateaued = if is_three_valued_plateaued_table(t, 4) { 1nat } else { 0nat };
        (
            rest.0 + balanced,
            rest.1 + bent,
            rest.2 + resilient,
            rest.3 + plateaued,
            if x.nonlinearity > rest.4 { x.nonlinearity } else { rest.4 },
            if x.balanced && x.nonlinearity > rest.5 { x.nonlinearity } else { rest.5 },
        )
    }
}

/// How many of the four-input functions with codes below `m` have a table
/// satisfying `p`.
pub open spec fn count_four_input_codes(m: nat, p: spec_fn(Seq<u8>) -> bool) -> nat
    decreases m,
{
    if m == 0 {
        0
    } else {
        count_four_input_codes((m - 1) as nat, p) + if p(code_table(4, (m - 1) as nat)) {
            1nat
        } else {
            0nat
        }
    }
}

/// A four-input table is resilient: balanced (eight of its sixteen rows are
/// one) and with `W_f(a) = 0` at every mask `a` of a single input.
pub open spec fn is_resilient_four_input(t: Seq<u8>) -> bool {
    &&& 2 * ones_upto(t, 16) == 16
    &&& forall|a: int| 0 <= a < 16 && bit_weight(a, 4) == 1 ==> #[trigger] walsh_coefficient(t, 4, a) == 0
}

/// Among the first `m` four-input codes, the scan counts as balanced exactly
/// the tables with eight ones, and as resilient exactly the balanced tables
/// whose Walsh coefficients vanish at every single-input mask; so the
/// resilient count never exceeds the balanced one.
pub proof fn lemma_four_variable_class_counts(m: nat)
    ensures
        four_variable_counts(m).0 == count_four_input_codes(m, |t: Seq<u8>| 2 * ones_upto(t, 16) == 16),
        four_variable_counts(m).2 == count_four_input_codes(m, |t: Seq<u8>| is_resilient_four_input(t)),
        four_variable_counts(m).2 <= four_variable_counts(m).0,
    decreases m,
{
    vstd::arithmetic::power2::lemma2_to64();
    if m > 0 {
        lemma_four_variable_class_counts((m - 1) as nat);
        let t = code_table(4, (m - 1) as nat);
        crate::spectral::lemma_correlation_immune_iff_single_input_masks_vanish(t, 4);
        assert(is_resilient_four_input(t) == (metrics_of(4, t).balanced && metrics_of(4, t).correlation_immunity > 0));
    }
}

/// The truth table of the four-input function with code `code`.
fn four_input_table(code: u32) -> (table: Vec<u8>)
    requires
        code < 65536,
    ensures
        table@ == code_table(4, code as nat),
{
    proof {
        vstd::arithmetic::power2::lemma2_to64();
    }
    let mut table: Vec<u8> = Vec::new();
    let mut row: u32 = 0;
    while row < 16
        invariant
            pow2(4) == 16,
            row <= 16,
            table@.len() == row,
            forall|r: int| 0 <= r < row ==> #[trigger] table@[r] == code_table(4, code as nat)[r],
        decreases 16 - row,
    {
        proof {
            vstd::bits::lemma_u32_shr_is_div(code, row);
            lemma_shr_is_div(code as int, row as nat);
        }
        if (code >> row) % 2 == 1 {
            table.push(1);
        } else {
            table.push(0);
        }
        row += 1;
    }
    proof {
        assert(table@ =~= code_table(4, code as nat));
    }
    table
}

/// Exhaustively scans all 65,536 scalar Boolean functions on four inputs and
/// counts the balanced, bent, resilient (balanced with correlation immunity
/// at least one) and three-valued plateaued ones, with the best nonlinearity
/// overall and among balanced functions.
pub fn scan_four_variable_reference_space() -> (stats: FourVariableReferenceStats)
    ensures
        ({
            let c = four_variable_counts(65536);
            stats == (FourVariableReferenceStats {
                total_functions: 65536,
                balanced_functions: c.0 as u32,
                bent_functions: c.1 as u32,
                resilient_functions: c.2 as u32,
                three_valued_plateaued_functions: c.3 as u32,
                best_nonlinearity: c.4,
                best_balanced_nonlinearity: c.5,
            })
        }),
{
    let mut balanced_functions: u32 = 0;
    let mut bent_functions: u32 = 0;
    let mut resilient_functions: u32 = 0;
    let mut plateaued_functions: u32 = 0;
    let mut best_nonlinearity: u64 = 0;
    let mut best_balanced_nonlinearity: u64 = 0;
    let mut code: u32 = 0;
    proof {
        vstd::arithmetic::power2::lemma2_to64();
    }
    while code < 65536
        invariant
            pow2(4) == 16,
            code <= 65536,
            balanced_functions <= code,
            bent_functions <= code,
            resilient_functions <= code,
            plateaued_functions <= code,
            ({
                let c = four_variable_counts(code as nat);
                &&& balanced_functions == c.0
                &&& bent_functions == c.1
                &&& resilient_functions == c.2
                &&& plateaued_functions == c.3
                &&& best_nonlinearity == c.4
                &&& best_balanced_nonlinearity == c.5
            }),
        decreases 65536 - code,
    {
        let table = four_input_table(code);
        proof {
            assert forall|i: int| 0 <= i < table@.len() implies #[trigger] table@[i] <= 1 by {}
        }
        let function = match BooleanFunction::new(4, table) {
            Ok(function) => function,
            Err(_) => {
                proof {
                    assert(false);
                }
                return FourVariableReferenceStats {
                    total_functions: 0,
                    balanced_functions: 0,
                    bent_functions: 0,
                    resilient_functions: 0,
                    three_valued_plateaued_functions: 0,
                    best_nonlinearity: 0,
                    best_balanced_nonlinearity: 0,
                };
            },
        };
        let metrics = function.exact_metrics();
        if metrics.balanced {
            balanced_functions += 1;
            if metrics.nonlinearity > best_balanced_nonlinearity {
                best_balanced_nonlinearity = metrics.nonlinearity;
            }
            if metrics.correlation_immunity > 0 {
                resilient_functions += 1;
            }
        }
        if metrics.bent {
            bent_functions += 1;
        }
        if is_three_valued_plateaued(function.truth_table(), 4) {
            plateaued_functions += 1;
        }
        if metrics.nonlinearity > best_nonlinearity {
            best_nonlinearity = metrics.nonlinearity;
        }
        code += 1;
    }
    assert(1u32 << 16u32 == 65536) by (bit_vector);
    FourVariableReferenceStats {
        total_functions: 1u32 << 16u32,
        balanced_functions,
        bent_functions,
        resilient_functions,
        three_valued_plateaued_functions: plateaued_functions,
        best_nonlinearity,
        best_balanced_nonlinearity,
    }
}

} // verus!
