//! Deterministic Boolean circuits over packed inputs.
//!
//! A circuit is a list of nodes evaluated in order; every gate reads only nodes
//! that come before it. Input `i` of row `x` is bit `i` of `x`.

use vstd::prelude::*;
use vstd::arithmetic::power2::pow2;
use crate::bitwise::{bit, lemma_shr_is_div};
use crate::spectral::{MAX_EXACT_BITS, lemma_rows_bound};

verus! {

/// One circuit node; operands are indices of earlier nodes.
#[derive(Clone, Copy, Debug, PartialEq, Eq)]
pub enum Node {
    Input(usize),
    Const(bool),
    Not(usize),
    And(usize, usize),
    Or(usize, usize),
    Xor(usize, usize),
    Xnor(usize, usize),
    Nand(usize, usize),
    Nor(usize, usize),
    Mux { select: usize, when_false: usize, when_true: usize },
}

/// Fail-closed circuit construction errors.
#[derive(Clone, Copy, Debug, PartialEq, Eq)]
pub enum CircuitError {
    InputWidth { width: usize, maximum: usize },
    EmptyCircuit,
    InputOutOfRange { node: usize, input: usize },
    ForwardReference { node: usize, operand: usize },
    MissingOutput,
    OutputOutOfRange { output: usize, nodes: usize },
}

/// A validated single-pass Boolean circuit.
#[derive(Debug, PartialEq, Eq)]
pub struct BooleanCircuit {
    input_width: usize,
    nodes: Vec<Node>,
    outputs: Vec<usize>,
}

/// Largest input width whose complete truth table a circuit may enumerate.
pub const MAX_EXACT_INPUT_BITS: usize = 20;

/// Node `i` reads only inputs below `width` and nodes before `i`.
pub open spec fn node_well_formed(node: Node, i: int, width: nat) -> bool {
    match node {
        Node::Input(k) => k < width,
        Node::Const(_) => true,
        Node::Not(a) => a < i,
        Node::And(a, b) => a < i && b < i,
        Node::Or(a, b) => a < i && b < i,
        Node::Xor(a, b) => a < i && b < i,
        Node::Xnor(a, b) => a < i && b < i,
        Node::Nand(a, b) => a < i && b < i,
        Node::Nor(a, b) => a < i && b < i,
        Node::Mux { select, when_false, when_true } => select < i && when_false < i && when_true
            < i,
    }
}

/// Value of `node` on input row `x` given the values of the earlier nodes.
pub open spec fn node_value(node: Node, values: Seq<bool>, x: int) -> bool {
    match node {
        Node::Input(k) => bit(x, k as nat),
        Node::Const(c) => c,
        Node::Not(a) => !values[a as int],
        Node::And(a, b) => values[a as int] && values[b as int],
        Node::Or(a, b) => values[a as int] || values[b as int],
        Node::Xor(a, b) => values[a as int] != values[b as int],
        Node::Xnor(a, b) => values[a as int] == values[b as int],
        Node::Nand(a, b) => !(values[a as int] && values[b as int]),
        Node::Nor(a, b) => !(values[a as int] || values[b as int]),
        Node::Mux { select, when_false, when_true } => if values[select as int] {
            values[when_true as int]
        } else {
            values[when_false as int]
        },
    }
}

/// Values of the first `m` nodes on input row `x`.
pub open spec fn eval_nodes(nodes: Seq<Node>, x: int, m: nat) -> Seq<bool>
    decreases m,
{
    if m == 0 {
        seq![]
    } else {
        let previous = eval_nodes(nodes, x, (m - 1) as nat);
        previous.push(node_value(nodes[m - 1], previous, x))
    }
}

pub proof fn lemma_eval_nodes_len(nodes: Seq<Node>, x: int, m: nat)
    ensures
        eval_nodes(nodes, x, m).len() == m,
    decreases m,
{
    if m > 0 {
        lemma_eval_nodes_len(nodes, x, (m - 1) as nat);
    }
}

/// Every node is well formed for the given input width.
pub open spec fn nodes_well_formed(nodes: Seq<Node>, width: nat) -> bool {
    forall|i: int| 0 <= i < nodes.len() ==> #[trigger] node_well_formed(nodes[i], i, width)
}

/// Value of node `output` on row `x`.
pub open spec fn circuit_output(nodes: Seq<Node>, output: int, x: int) -> bool {
    eval_nodes(nodes, x, nodes.len())[output]
}

/// Truth table of node `output` over all `2^width` input rows.
pub open spec fn output_table(nodes: Seq<Node>, width: nat, output: int) -> Seq<u8> {
    Seq::new(
        pow2(width),
        |x: int|
            if circuit_output(nodes, output, x) {
                1u8
            } else {
                0u8
            },
    )
}

/// Evaluates one input row.
fn evaluate_row(nodes: &Vec<Node>, width: usize, x: usize) -> (values: Vec<bool>)
    requires
        width <= MAX_EXACT_INPUT_BITS,
        nodes_well_formed(nodes@, width as nat),
    ensures
        values@ == eval_nodes(nodes@, x as int, nodes@.len()),
{
    let mut values: Vec<bool> = Vec::with_capacity(nodes.len());
    let mut i: usize = 0;
    while i < nodes.len()
        invariant
            i <= nodes@.len(),
            width <= MAX_EXACT_INPUT_BITS,
            nodes_well_formed(nodes@, width as nat),
            values@ == eval_nodes(nodes@, x as int, i as nat),
        decreases nodes@.len() - i,
    {
        proof {
            lemma_eval_nodes_len(nodes@, x as int, i as nat);
            assert(node_well_formed(nodes@[i as int], i as int, width as nat));
        }
        let value = match nodes[i] {
            Node::Input(k) => {
                proof {
                    vstd::bits::lemma_u64_shr_is_div(x as u64, k as u64);
                    lemma_shr_is_div(x as int, k as nat);
                }
                ((x as u64) >> (k as u64)) % 2 == 1
            },
            Node::Const(c) => c,
            Node::Not(a) => !values[a],
            Node::And(a, b) => values[a] && values[b],
            Node::Or(a, b) => values[a] || values[b],
            Node::Xor(a, b) => values[a] != values[b],
            Node::Xnor(a, b) => values[a] == values[b],
            Node::Nand(a, b) => !(values[a] && values[b]),
            Node::Nor(a, b) => !(values[a] || values[b]),
            Node::Mux { select, when_false, when_true } => if values[select] {
                values[when_true]
            } else {
                values[when_false]
            },
        };
        values.push(value);
        i += 1;
    }
    values
}

/// Checks one node against the input width and its position.
fn check_node(node: Node, i: usize, width: usize) -> (result: Result<(), CircuitError>)
    ensures
        result is Ok <==> node_well_formed(node, i as int, width as nat),
{
    match node {
        Node::Input(k) => if k < width {
            Ok(())
        } else {
            Err(CircuitError::InputOutOfRange { node: i, input: k })
        },
        Node::Const(_) => Ok(()),
        Node::Not(a) => if a < i {
            Ok(())
        } else {
            Err(CircuitError::ForwardReference { node: i, operand: a })
        },
        Node::And(a, b) | Node::Or(a, b) | Node::Xor(a, b) | Node::Xnor(a, b) | Node::Nand(a, b)
        | Node::Nor(a, b) => if a >= i {
            Err(CircuitError::ForwardReference { node: i, operand: a })
        } else if b >= i {
            Err(CircuitError::ForwardReference { node: i, operand: b })
        } else {
            Ok(())
        },
        Node::Mux { select, when_false, when_true } => if select >= i {
            Err(CircuitError::ForwardReference { node: i, operand: select })
        } else if when_false >= i {
            Err(CircuitError::ForwardReference { node: i, operand: when_false })
        } else if when_true >= i {
            Err(CircuitError::ForwardReference { node: i, operand: when_true })
        } else {
            Ok(())
        },
    }
}

impl BooleanCircuit {
    #[verifier::type_invariant]
    closed spec fn well_formed(self) -> bool {
        &&& self.input_width <= MAX_EXACT_INPUT_BITS
        &&& self.nodes@.len() > 0
        &&& nodes_well_formed(self.nodes@, self.input_width as nat)
        &&& self.outputs@.len() > 0
        &&& forall|k: int| 0 <= k < self.outputs@.len() ==> #[trigger] self.outputs@[k] < self.nodes@.len()
    }

    /// Number of packed inputs.
    pub closed spec fn spec_input_width(self) -> nat {
        self.input_width as nat
    }

    /// The nodes in evaluation order.
    pub closed spec fn spec_nodes(self) -> Seq<Node> {
        self.nodes@
    }

    /// The output node indices.
    pub closed spec fn spec_outputs(self) -> Seq<usize> {
        self.outputs@
    }

    /// Validates and builds a circuit.
    ///
    /// # Errors
    ///
    /// Rejects an input width above [`MAX_EXACT_INPUT_BITS`], an empty node list, a node
    /// reading an absent input or a later node, and an empty or out-of-range output list.
    pub fn new(input_width: usize, nodes: Vec<Node>, outputs: Vec<usize>) -> (result: Result<
        Self,
        CircuitError,
    >)
        ensures
            result is Ok <==> (input_width <= MAX_EXACT_INPUT_BITS && nodes@.len() > 0
                && nodes_well_formed(nodes@, input_width as nat) && outputs@.len() > 0 && (forall|
                k: int,
            | 0 <= k < outputs@.len() ==> #[trigger] outputs@[k] < nodes@.len())),
            result matches Ok(circuit) ==> circuit.spec_input_width() == input_width
                && circuit.spec_nodes() == nodes@ && circuit.spec_outputs() == outputs@,
    {
        if input_width > MAX_EXACT_INPUT_BITS {
            return Err(CircuitError::InputWidth { width: input_width, maximum: MAX_EXACT_INPUT_BITS });
        }
        if nodes.len() == 0 {
            return Err(CircuitError::EmptyCircuit);
        }
        let mut i: usize = 0;
        while i < nodes.len()
            invariant
                i <= nodes@.len(),
                forall|j: int| 0 <= j < i ==> #[trigger] node_well_formed(nodes@[j], j, input_width as nat),
            decreases nodes@.len() - i,
        {
            if let Err(error) = check_node(nodes[i], i, input_width) {
                return Err(error);
            }
            i += 1;
        }
        if outputs.len() == 0 {
            return Err(CircuitError::MissingOutput);
        }
        let mut k: usize = 0;
        while k < outputs.len()
            invariant
                k <= outputs@.len(),
                forall|j: int| 0 <= j < k ==> #[trigger] outputs@[j] < nodes@.len(),
            decreases outputs@.len() - k,
        {
            if outputs[k] >= nodes.len() {
                return Err(CircuitError::OutputOutOfRange { output: outputs[k], nodes: nodes.len() });
            }
            k += 1;
        }
        Ok(Self { input_width, nodes, outputs })
    }

    pub fn input_width(&self) -> (width: usize)
        ensures
            width == self.spec_input_width(),
            width <= MAX_EXACT_INPUT_BITS,
    {
        proof {
            use_type_invariant(self);
        }
        self.input_width
    }

    pub fn nodes(&self) -> (nodes: &[Node])
        ensures
            nodes@ == self.spec_nodes(),
    {
        self.nodes.as_slice()
    }

    /// Complete truth table of the first output node, row `x` holding its value on `x`.
    pub fn first_output_table(&self) -> (table: Vec<u8>)
        ensures
            self.spec_outputs().len() > 0,
            table@ == output_table(self.spec_nodes(), self.spec_input_width(), self.spec_outputs()[0] as int),
    {
        proof {
            use_type_invariant(self);
            lemma_rows_bound(self.input_width as nat);
            vstd::bits::lemma_usize_shl_is_mul(1, self.input_width);
        }
        let rows: usize = 1usize << self.input_width;
        let output = self.outputs[0];
        let mut table: Vec<u8> = Vec::with_capacity(rows);
        let mut x: usize = 0;
        while x < rows
            invariant
                rows == pow2(self.input_width as nat),
                x <= rows,
                output == self.outputs@[0],
                output < self.nodes@.len(),
                self.input_width <= MAX_EXACT_INPUT_BITS,
                nodes_well_formed(self.nodes@, self.input_width as nat),
                table@ =~= output_table(self.nodes@, self.input_width as nat, output as int).subrange(
                    0,
                    x as int,
                ),
            decreases rows - x,
        {
            let values = evaluate_row(&self.nodes, self.input_width, x);
            proof {
                lemma_eval_nodes_len(self.nodes@, x as int, self.nodes@.len());
            }
            if values[output] {
                table.push(1);
            } else {
                table.push(0);
            }
            x += 1;
        }
        table
    }
}

} // verus!
