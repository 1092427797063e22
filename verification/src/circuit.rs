//! The circuit data model: wires, gates, and the well-formedness invariant
//! that both evaluators rely on, together with the mathematical value of
//! every wire (`wire_val`) that the evaluators are proved against.

use vstd::prelude::*;

verus! {

/// The boolean operator computed by a gate.
#[derive(Clone, Debug)]
pub enum GateType {
    Not,
    And,
    Xor,
}

/// One gate: an operator, its input wires (one for NOT, two for AND/XOR),
/// and the single wire it produces.
#[derive(Clone, Debug)]
pub struct Gate {
    pub gate_type: GateType,
    pub input_wires: Vec<usize>,
    pub output_wire: usize,
}

/// An immutable circuit: a fixed wire count, gates in declaration order,
/// the wires to report as outputs, and the wires seeded from the two
/// input groups.
#[derive(Clone, Debug)]
pub struct Circuit {
    pub n_wires: usize,
    pub gates: Vec<Gate>,
    pub outputs: Vec<usize>,
    pub a_input_wires: Vec<usize>,
    pub b_input_wires: Vec<usize>,
}

/// Mathematical model of a gate: wire indices as unbounded integers.
pub ghost struct GateModel {
    pub op: GateType,
    pub ins: Seq<int>,
    pub out: int,
}

/// Mathematical model of a circuit.
pub ghost struct CircuitModel {
    pub n_wires: int,
    pub gates: Seq<GateModel>,
    pub outputs: Seq<int>,
    pub a_wires: Seq<int>,
    pub b_wires: Seq<int>,
}

/// A list of wire indices, as unbounded integers.
pub open spec fn wires_model(s: Seq<usize>) -> Seq<int> {
    s.map_values(|w: usize| w as int)
}

/// A list of gates, as their models.
pub open spec fn gates_model(s: Seq<Gate>) -> Seq<GateModel> {
    s.map_values(|g: Gate| g@)
}

impl View for Gate {
    type V = GateModel;

    open spec fn view(&self) -> GateModel {
        GateModel {
            op: self.gate_type,
            ins: wires_model(self.input_wires@),
            out: self.output_wire as int,
        }
    }
}

impl View for Circuit {
    type V = CircuitModel;

    open spec fn view(&self) -> CircuitModel {
        CircuitModel {
            n_wires: self.n_wires as int,
            gates: gates_model(self.gates@),
            outputs: wires_model(self.outputs@),
            a_wires: wires_model(self.a_input_wires@),
            b_wires: wires_model(self.b_input_wires@),
        }
    }
}

/// How many input wires a gate with this operator reads.
pub open spec fn gate_arity(op: GateType) -> int {
    match op {
        GateType::Not => 1,
        GateType::And => 2,
        GateType::Xor => 2,
    }
}

/// Wire `w` occurs in the wire list `s`.
pub open spec fn wire_in(s: Seq<int>, w: int) -> bool {
    exists|i: int| 0 <= i < s.len() && s[i] == w
}

/// The position of wire `w` in the wire list `s` (meaningful only when
/// `wire_in(s, w)` and the list is duplicate-free).
pub open spec fn wire_pos(s: Seq<int>, w: int) -> int {
    choose|i: int| 0 <= i < s.len() && s[i] == w
}

/// The list holds no wire twice.
pub open spec fn wires_distinct(s: Seq<int>) -> bool {
    forall|i: int, j: int| 0 <= i < j < s.len() ==> s[i] != s[j]
}

/// The two lists share no wire.
pub open spec fn wires_disjoint(s: Seq<int>, t: Seq<int>) -> bool {
    forall|i: int, j: int| 0 <= i < s.len() && 0 <= j < t.len() ==> s[i] != t[j]
}

/// Wire `w` is seeded directly from one of the two input groups.
pub open spec fn is_primary_input(m: CircuitModel, w: int) -> bool {
    wire_in(m.a_wires, w) || wire_in(m.b_wires, w)
}

/// Some gate of the circuit writes wire `w`.
pub open spec fn wire_produced(m: CircuitModel, w: int) -> bool {
    exists|g: int| 0 <= g < m.gates.len() && m.gates[g].out == w
}

/// The index of the producing gate for wire `w` (meaningful only when
/// `wire_produced(m, w)`; unique under `wf`).
pub open spec fn producer(m: CircuitModel, w: int) -> int {
    choose|g: int| 0 <= g < m.gates.len() && m.gates[g].out == w
}

/// Wire `w` carries a value during evaluation: it is either a primary
/// input or some gate's output.
pub open spec fn wire_available(m: CircuitModel, w: int) -> bool {
    is_primary_input(m, w) || wire_produced(m, w)
}

/// Gate `i` of the circuit is well formed: the operator's arity matches,
/// its output wire is in range, every input wire is strictly below the
/// output wire (so the dependency relation is acyclic and gate order is
/// topological), and every input wire is available.
pub open spec fn gate_wf(m: CircuitModel, i: int) -> bool {
    let g = m.gates[i];
    &&& g.ins.len() == gate_arity(g.op)
    &&& 0 <= g.out < m.n_wires
    &&& forall|j: int| 0 <= j < g.ins.len() ==> 0 <= #[trigger] g.ins[j] < g.out
    &&& forall|j: int| 0 <= j < g.ins.len() ==> wire_available(m, #[trigger] g.ins[j])
}

/// The circuit invariant: every gate is well formed; gates are ordered by
/// strictly increasing output wire (each wire is written by at most one
/// gate, and the stored order is a valid topological order); no gate
/// writes a primary input wire; the input-group lists are in range,
/// duplicate-free and disjoint; and every reported output wire is in range
/// and available.
pub open spec fn wf(m: CircuitModel) -> bool {
    &&& m.n_wires >= 0
    &&& forall|i: int| 0 <= i < m.gates.len() ==> #[trigger] gate_wf(m, i)
    &&& forall|i: int, j: int|
        0 <= i < j < m.gates.len() ==> m.gates[i].out < m.gates[j].out
    &&& forall|i: int|
        0 <= i < m.gates.len() ==> !is_primary_input(m, #[trigger] m.gates[i].out)
    &&& forall|i: int| 0 <= i < m.a_wires.len() ==> 0 <= #[trigger] m.a_wires[i] < m.n_wires
    &&& forall|i: int| 0 <= i < m.b_wires.len() ==> 0 <= #[trigger] m.b_wires[i] < m.n_wires
    &&& wires_distinct(m.a_wires)
    &&& wires_distinct(m.b_wires)
    &&& wires_disjoint(m.a_wires, m.b_wires)
    &&& forall|i: int| 0 <= i < m.outputs.len() ==> 0 <= #[trigger] m.outputs[i] < m.n_wires
    &&& forall|i: int| 0 <= i < m.outputs.len() ==> wire_available(m, #[trigger] m.outputs[i])
}

/// The input vectors match the circuit's input-wire lists in length.
pub open spec fn shapes_ok(m: CircuitModel, a: Seq<bool>, b: Seq<bool>) -> bool {
    a.len() == m.a_wires.len() && b.len() == m.b_wires.len()
}

/// The value every wire settles to, as a mathematical function of the
/// circuit and the two input vectors: a primary input wire carries the
/// caller-supplied bit at its position; a produced wire carries the
/// operator of its producing gate, computed over the settled values of
/// the input wires it reads; every other wire keeps the default `false`.
pub open spec fn wire_val(m: CircuitModel, a: Seq<bool>, b: Seq<bool>, w: int) -> bool
    decreases w
        when wf(m)
        via wire_val_decreases
{
    if wire_in(m.a_wires, w) {
        a[wire_pos(m.a_wires, w)]
    } else if wire_in(m.b_wires, w) {
        b[wire_pos(m.b_wires, w)]
    } else if wire_produced(m, w) {
        let g = m.gates[producer(m, w)];
        match g.op {
            GateType::Not => !wire_val(m, a, b, g.ins[0]),
            GateType::And => wire_val(m, a, b, g.ins[0]) && wire_val(m, a, b, g.ins[1]),
            GateType::Xor => wire_val(m, a, b, g.ins[0]) != wire_val(m, a, b, g.ins[1]),
        }
    } else {
        false
    }
}

#[via_fn]
proof fn wire_val_decreases(m: CircuitModel, a: Seq<bool>, b: Seq<bool>, w: int) {
    if wf(m) && !wire_in(m.a_wires, w) && !wire_in(m.b_wires, w) && wire_produced(m, w) {
        let p = producer(m, w);
        assert(0 <= p < m.gates.len() && m.gates[p].out == w);
        assert(gate_wf(m, p));
    }
}

/// The circuit's result: the settled values of the output wires, in order.
pub open spec fn eval_spec(m: CircuitModel, a: Seq<bool>, b: Seq<bool>) -> Seq<bool> {
    Seq::new(m.outputs.len(), |i: int| wire_val(m, a, b, m.outputs[i]))
}

/// In a well-formed circuit, gate `i` is the one and only producer of its
/// output wire.
pub proof fn lemma_producer_unique(m: CircuitModel, i: int)
    requires
        wf(m),
        0 <= i < m.gates.len(),
    ensures
        wire_produced(m, m.gates[i].out),
        producer(m, m.gates[i].out) == i,
{
    let w = m.gates[i].out;
    assert(wire_produced(m, w));
    let p = producer(m, w);
    assert(0 <= p < m.gates.len() && m.gates[p].out == w);
    if p < i {
        assert(m.gates[p].out < m.gates[i].out);
    }
    if i < p {
        assert(m.gates[i].out < m.gates[p].out);
    }
}

} // verus!
