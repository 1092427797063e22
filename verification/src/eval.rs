//! The single-threaded reference evaluator: deterministic evaluation of a
//! well-formed circuit over plain booleans, proved to return exactly the
//! settled wire values (`eval_spec`).

use vstd::prelude::*;
use vstd::pervasive::VecAdditionalExecFns;

use crate::circuit::{
    gate_wf, is_primary_input, lemma_producer_unique, shapes_ok, wf, wire_available, wire_in,
    wire_pos, wire_produced, wire_val, eval_spec, Circuit, CircuitModel, GateType,
};
use crate::errors::EvalError;

verus! {

/// Wire `w` appears among the first `k` entries of the wire list `s`.
pub open spec fn wire_in_prefix(s: Seq<int>, k: int, w: int) -> bool {
    exists|j: int| 0 <= j < k && j < s.len() && s[j] == w
}

/// Wire `w` is written by one of the first `k` gates.
pub open spec fn produced_before(m: CircuitModel, k: int, w: int) -> bool {
    exists|g: int| 0 <= g < k && g < m.gates.len() && m.gates[g].out == w
}

/// The value wire `w` holds after seeding and after the first `k` gates of
/// a well-formed circuit have run: its settled value once it has been
/// written (or seeded), the default `false` before that.
pub open spec fn mid_val(m: CircuitModel, a: Seq<bool>, b: Seq<bool>, k: int, w: int) -> bool {
    if is_primary_input(m, w) || produced_before(m, k, w) {
        wire_val(m, a, b, w)
    } else {
        false
    }
}

/// Once all gates have run, a wire has been written exactly when some gate
/// produces it.
pub proof fn lemma_produced_full(m: CircuitModel, w: int)
    ensures
        produced_before(m, m.gates.len() as int, w) == wire_produced(m, w),
{
    if produced_before(m, m.gates.len() as int, w) {
        let g = choose|g: int|
            0 <= g < m.gates.len() && g < m.gates.len() && m.gates[g].out == w;
        assert(0 <= g < m.gates.len() && m.gates[g].out == w);
    }
    if wire_produced(m, w) {
        let g = choose|g: int| 0 <= g < m.gates.len() && m.gates[g].out == w;
        assert(0 <= g < m.gates.len() as int && g < m.gates.len() && m.gates[g].out == w);
    }
}

/// In a well-formed circuit, every input wire of gate `k` has been written
/// (or seeded) before gate `k` runs in stored order: the stored order is a
/// topological order.
pub proof fn lemma_inputs_settled(m: CircuitModel, k: int, j: int)
    requires
        wf(m),
        0 <= k < m.gates.len(),
        0 <= j < m.gates[k].ins.len(),
    ensures
        is_primary_input(m, m.gates[k].ins[j]) || produced_before(m, k, m.gates[k].ins[j]),
{
    assert(gate_wf(m, k));
    let w = m.gates[k].ins[j];
    if !is_primary_input(m, w) {
        assert(wire_available(m, w));
        let g = choose|g: int| 0 <= g < m.gates.len() && m.gates[g].out == w;
        assert(0 <= g < m.gates.len() && m.gates[g].out == w);
        if g == k {
            assert(m.gates[k].ins[j] < m.gates[k].out);
            assert(false);
        }
        if g > k {
            assert(m.gates[k].out < m.gates[g].out);
            assert(m.gates[k].ins[j] < m.gates[k].out);
            assert(false);
        }
        assert(produced_before(m, k, w));
    }
}

impl Circuit {
    /// The reference evaluator: seed the two input groups, run the gates in
    /// stored order, and report the output wires. The result is exactly the
    /// mathematical evaluation of the circuit.
    pub fn eval(&self, a_input: &Vec<bool>, b_input: &Vec<bool>) -> (r: Vec<bool>)
        requires
            wf(self@),
            shapes_ok(self@, a_input@, b_input@),
        ensures
            r@ == eval_spec(self@, a_input@, b_input@),
    {
        let ghost m = self@;
        let ghost a = a_input@;
        let ghost b = b_input@;

        let mut values: Vec<bool> = Vec::new();
        let mut w: usize = 0;
        while w < self.n_wires
            invariant
                w <= self.n_wires,
                values@.len() == w,
                forall|x: int| 0 <= x < w ==> !values@[x],
            decreases self.n_wires - w,
        {
            values.push(false);
            w += 1;
        }

        let mut i: usize = 0;
        while i < self.a_input_wires.len()
            invariant
                m == self@,
                a == a_input@,
                wf(m),
                shapes_ok(m, a, b),
                i <= self.a_input_wires.len(),
                values@.len() == m.n_wires,
                forall|j: int| 0 <= j < i ==> values@[m.a_wires[j]] == a[j],
                forall|x: int|
                    0 <= x < m.n_wires && !wire_in_prefix(m.a_wires, i as int, x)
                        ==> !values@[x],
            decreases self.a_input_wires.len() - i,
        {
            let wire = self.a_input_wires[i];
            proof {
                assert(m.a_wires[i as int] == wire as int);
                assert(0 <= m.a_wires[i as int] < m.n_wires);
            }
            values.set(wire, a_input[i]);
            proof {
                assert forall|j: int| 0 <= j < i + 1 implies values@[m.a_wires[j]] == a[j] by {
                    if j < i {
                        assert(m.a_wires[j] != m.a_wires[i as int]);
                    }
                }
                assert forall|x: int|
                    0 <= x < m.n_wires && !wire_in_prefix(m.a_wires, i + 1, x)
                        implies !values@[x] by {
                    assert(!wire_in_prefix(m.a_wires, i as int, x));
                }
            }
            i += 1;
        }

        let mut i: usize = 0;
        while i < self.b_input_wires.len()
            invariant
                m == self@,
                a == a_input@,
                b == b_input@,
                wf(m),
                shapes_ok(m, a, b),
                i <= self.b_input_wires.len(),
                values@.len() == m.n_wires,
                forall|j: int| 0 <= j < m.a_wires.len() ==> values@[m.a_wires[j]] == a[j],
                forall|j: int| 0 <= j < i ==> values@[m.b_wires[j]] == b[j],
                forall|x: int|
                    0 <= x < m.n_wires && !wire_in(m.a_wires, x)
                        && !wire_in_prefix(m.b_wires, i as int, x) ==> !values@[x],
            decreases self.b_input_wires.len() - i,
        {
            let wire = self.b_input_wires[i];
            proof {
                assert(m.b_wires[i as int] == wire as int);
                assert(0 <= m.b_wires[i as int] < m.n_wires);
            }
            values.set(wire, b_input[i]);
            proof {
                assert forall|j: int|
                    0 <= j < m.a_wires.len() implies values@[m.a_wires[j]] == a[j] by {
                    assert(m.a_wires[j] != m.b_wires[i as int]);
                }
                assert forall|j: int| 0 <= j < i + 1 implies values@[m.b_wires[j]] == b[j] by {
                    if j < i {
                        assert(m.b_wires[j] != m.b_wires[i as int]);
                    }
                }
                assert forall|x: int|
                    0 <= x < m.n_wires && !wire_in(m.a_wires, x)
                        && !wire_in_prefix(m.b_wires, i + 1, x) implies !values@[x] by {
                    assert(!wire_in_prefix(m.b_wires, i as int, x));
                }
            }
            i += 1;
        }

        proof {
            assert forall|x: int|
                0 <= x < m.n_wires implies values@[x] == mid_val(m, a, b, 0, x) by {
                assert(!produced_before(m, 0, x));
                if wire_in(m.a_wires, x) {
                    let p = wire_pos(m.a_wires, x);
                    assert(0 <= p < m.a_wires.len() && m.a_wires[p] == x);
                    assert(values@[x] == a[p]);
                } else if wire_in(m.b_wires, x) {
                    let p = wire_pos(m.b_wires, x);
                    assert(0 <= p < m.b_wires.len() && m.b_wires[p] == x);
                    assert(values@[x] == b[p]);
                    assert(wire_val(m, a, b, x) == b[p]);
                } else {
                    assert(!wire_in_prefix(m.a_wires, m.a_wires.len() as int, x)) by {
                        if wire_in_prefix(m.a_wires, m.a_wires.len() as int, x) {
                            assert(wire_in(m.a_wires, x));
                        }
                    }
                    assert(!wire_in_prefix(m.b_wires, m.b_wires.len() as int, x)) by {
                        if wire_in_prefix(m.b_wires, m.b_wires.len() as int, x) {
                            assert(wire_in(m.b_wires, x));
                        }
                    }
                }
            }
        }

        let mut gi: usize = 0;
        while gi < self.gates.len()
            invariant
                m == self@,
                a == a_input@,
                b == b_input@,
                wf(m),
                shapes_ok(m, a, b),
                gi <= self.gates.len(),
                values@.len() == m.n_wires,
                forall|x: int|
                    0 <= x < m.n_wires ==> values@[x] == mid_val(m, a, b, gi as int, x),
            decreases self.gates.len() - gi,
        {
            let gate = &self.gates[gi];
            proof {
                assert(gate@ == m.gates[gi as int]);
                assert(gate_wf(m, gi as int));
            }
            let ghost g = m.gates[gi as int];
            proof {
                assert forall|j: int|
                    0 <= j < g.ins.len() implies values@[g.ins[j]] == wire_val(m, a, b, g.ins[j]) by {
                    lemma_inputs_settled(m, gi as int, j);
                    assert(0 <= g.ins[j] < m.n_wires);
                    assert(values@[g.ins[j]] == mid_val(m, a, b, gi as int, g.ins[j]));
                }
            }
            proof {
                assert(g.ins[0] == gate.input_wires@[0] as int);
                assert(0 <= g.ins[0] < g.out);
                assert(g.out < m.n_wires);
            }
            let in0 = values[gate.input_wires[0]];
            proof {
                assert(in0 == wire_val(m, a, b, g.ins[0]));
            }
            let out_val: bool = match gate.gate_type {
                GateType::Not => !in0,
                GateType::And => {
                    proof {
                        assert(g.ins[1] == gate.input_wires@[1] as int);
                        assert(0 <= g.ins[1] < g.out);
                    }
                    let in1 = values[gate.input_wires[1]];
                    in0 && in1
                },
                GateType::Xor => {
                    proof {
                        assert(g.ins[1] == gate.input_wires@[1] as int);
                        assert(0 <= g.ins[1] < g.out);
                    }
                    let in1 = values[gate.input_wires[1]];
                    in0 != in1
                },
            };
            proof {
                lemma_producer_unique(m, gi as int);
                assert(!is_primary_input(m, g.out));
                assert(out_val == wire_val(m, a, b, g.out));
            }
            values.set(gate.output_wire, out_val);
            proof {
                assert(values@[g.out] == wire_val(m, a, b, g.out));
                assert(produced_before(m, gi + 1, g.out));
                assert forall|x: int|
                    0 <= x < m.n_wires implies values@[x] == mid_val(m, a, b, gi + 1, x) by {
                    if x != g.out {
                        assert(produced_before(m, gi + 1, x) == produced_before(m, gi as int, x))
                            by {
                            if produced_before(m, gi + 1, x) {
                                let p = choose|p: int|
                                    0 <= p < gi + 1 && p < m.gates.len() && m.gates[p].out == x;
                                assert(p != gi);
                                assert(produced_before(m, gi as int, x));
                            }
                            if produced_before(m, gi as int, x) {
                                let p = choose|p: int|
                                    0 <= p < gi && p < m.gates.len() && m.gates[p].out == x;
                                assert(0 <= p < gi + 1 && p < m.gates.len() && m.gates[p].out == x);
                            }
                        }
                    }
                }
            }
            gi += 1;
        }

        let mut out: Vec<bool> = Vec::new();
        let mut k: usize = 0;
        while k < self.outputs.len()
            invariant
                m == self@,
                a == a_input@,
                b == b_input@,
                wf(m),
                shapes_ok(m, a, b),
                k <= self.outputs.len(),
                values@.len() == m.n_wires,
                forall|x: int|
                    0 <= x < m.n_wires
                        ==> values@[x] == mid_val(m, a, b, m.gates.len() as int, x),
                out@.len() == k,
                forall|j: int| 0 <= j < k ==> out@[j] == wire_val(m, a, b, m.outputs[j]),
            decreases self.outputs.len() - k,
        {
            let wire = self.outputs[k];
            proof {
                assert(m.outputs[k as int] == wire as int);
                assert(0 <= m.outputs[k as int] < m.n_wires);
                assert(wire_available(m, wire as int));
                lemma_produced_full(m, wire as int);
                assert(values@[wire as int] == wire_val(m, a, b, wire as int));
            }
            out.push(values[wire]);
            k += 1;
        }
        proof {
            assert(out@ =~= eval_spec(m, a, b));
        }
        out
    }

    /// The reference evaluator behind runtime checks: rejects a malformed
    /// circuit with `InvariantViolation` and mismatched input lengths with
    /// `ShapeMismatch`, and otherwise returns exactly what `eval` returns.
    pub fn eval_checked(&self, a_input: &Vec<bool>, b_input: &Vec<bool>) -> (r: Result<
        Vec<bool>,
        EvalError,
    >)
        ensures
            match r {
                Ok(out) => wf(self@) && shapes_ok(self@, a_input@, b_input@) && out@ == eval_spec(
                    self@,
                    a_input@,
                    b_input@,
                ),
                Err(e) => match e {
                    EvalError::InvariantViolation => !wf(self@),
                    EvalError::ShapeMismatch => wf(self@) && !shapes_ok(
                        self@,
                        a_input@,
                        b_input@,
                    ),
                    EvalError::ConfigError => false,
                },
            },
    {
        if !self.validate() {
            return Err(EvalError::InvariantViolation);
        }
        if a_input.len() != self.a_input_wires.len() || b_input.len() != self.b_input_wires.len() {
            return Err(EvalError::ShapeMismatch);
        }
        Ok(self.eval(a_input, b_input))
    }
}

/// Law: evaluation is a pure function of the circuit and its inputs. Any
/// two results that `eval`'s contract admits for the same circuit and the
/// same input vectors are identical, so re-running `eval` any number of
/// times yields the same output.
pub proof fn lemma_eval_idempotent(
    m: CircuitModel,
    a: Seq<bool>,
    b: Seq<bool>,
    r1: Seq<bool>,
    r2: Seq<bool>,
)
    requires
        r1 == eval_spec(m, a, b),
        r2 == eval_spec(m, a, b),
    ensures
        r1 == r2,
{
}

} // verus!
