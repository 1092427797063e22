//! Runtime validation of the circuit invariant: a hand-built circuit can be
//! checked before evaluation, so a cyclic or double-written gate list is
//! rejected instead of hanging or silently producing wrong outputs.

use vstd::prelude::*;

use crate::circuit::{
    gate_arity, gate_wf, is_primary_input, wf, wire_available, wire_in, wire_produced,
    wires_disjoint, wires_distinct, wires_model, Circuit, GateType,
};
use crate::eval::{lemma_produced_full, produced_before, wire_in_prefix};

verus! {

/// Linear scan: does the wire list `v` hold `w`?
fn contains_wire(v: &Vec<usize>, w: usize) -> (r: bool)
    ensures
        r == wire_in(wires_model(v@), w as int),
{
    let ghost s = wires_model(v@);
    let mut i: usize = 0;
    while i < v.len()
        invariant
            s == wires_model(v@),
            i <= v.len(),
            !wire_in_prefix(s, i as int, w as int),
        decreases v.len() - i,
    {
        if v[i] == w {
            proof {
                assert(s[i as int] == w as int);
            }
            return true;
        }
        proof {
            assert(s[i as int] != w as int);
            assert(!wire_in_prefix(s, i + 1, w as int)) by {
                if wire_in_prefix(s, i + 1, w as int) {
                    let j = choose|j: int| 0 <= j < i + 1 && j < s.len() && s[j] == w as int;
                    assert(j != i);
                    assert(wire_in_prefix(s, i as int, w as int));
                }
            }
        }
        i += 1;
    }
    proof {
        assert(!wire_in(s, w as int)) by {
            if wire_in(s, w as int) {
                let j = choose|j: int| 0 <= j < s.len() && s[j] == w as int;
                assert(wire_in_prefix(s, v@.len() as int, w as int));
            }
        }
    }
    false
}

impl Circuit {
    /// Linear scan: does some gate write wire `w`?
    fn wire_is_produced(&self, w: usize) -> (r: bool)
        ensures
            r == wire_produced(self@, w as int),
    {
        let ghost m = self@;
        let mut i: usize = 0;
        while i < self.gates.len()
            invariant
                m == self@,
                i <= self.gates.len(),
                !produced_before(m, i as int, w as int),
            decreases self.gates.len() - i,
        {
            if self.gates[i].output_wire == w {
                proof {
                    assert(m.gates[i as int] == self.gates@[i as int]@);
                    assert(m.gates[i as int].out == w as int);
                }
                return true;
            }
            proof {
                assert(m.gates[i as int] == self.gates@[i as int]@);
                assert(m.gates[i as int].out != w as int);
                assert(!produced_before(m, i + 1, w as int)) by {
                    if produced_before(m, i + 1, w as int) {
                        let g = choose|g: int|
                            0 <= g < i + 1 && g < m.gates.len() && m.gates[g].out == w as int;
                        assert(g != i);
                        assert(produced_before(m, i as int, w as int));
                    }
                }
            }
            i += 1;
        }
        proof {
            lemma_produced_full(m, w as int);
        }
        false
    }

    /// Is wire `w` a primary input or some gate's output?
    fn wire_is_available(&self, w: usize) -> (r: bool)
        ensures
            r == wire_available(self@, w as int),
    {
        contains_wire(&self.a_input_wires, w) || contains_wire(&self.b_input_wires, w)
            || self.wire_is_produced(w)
    }

    /// Check `gate_wf` for gate `i`.
    fn gate_ok(&self, i: usize) -> (r: bool)
        requires
            i < self.gates.len(),
        ensures
            r == gate_wf(self@, i as int),
    {
        let ghost m = self@;
        let gate = &self.gates[i];
        proof {
            assert(m.gates[i as int] == gate@);
        }
        let arity_ok: bool = match gate.gate_type {
            GateType::Not => gate.input_wires.len() == 1,
            GateType::And => gate.input_wires.len() == 2,
            GateType::Xor => gate.input_wires.len() == 2,
        };
        if !arity_ok {
            return false;
        }
        if !(gate.output_wire < self.n_wires) {
            return false;
        }
        let mut j: usize = 0;
        while j < gate.input_wires.len()
            invariant
                m == self@,
                i < self.gates.len(),
                m.gates[i as int] == gate@,
                gate@.ins.len() == gate_arity(gate@.op),
                0 <= gate@.out < m.n_wires,
                j <= gate.input_wires.len(),
                forall|t: int|
                    0 <= t < j
                        ==> 0 <= #[trigger] gate@.ins[t] < gate@.out
                            && wire_available(m, gate@.ins[t]),
            decreases gate.input_wires.len() - j,
        {
            let iw = gate.input_wires[j];
            proof {
                assert(gate@.ins[j as int] == iw as int);
            }
            if !(iw < gate.output_wire) {
                return false;
            }
            if !self.wire_is_available(iw) {
                return false;
            }
            j += 1;
        }
        true
    }

    /// Check `gate_wf` for every gate.
    fn gates_all_ok(&self) -> (r: bool)
        ensures
            r == forall|i: int| 0 <= i < self@.gates.len() ==> #[trigger] gate_wf(self@, i),
    {
        let ghost m = self@;
        let mut i: usize = 0;
        while i < self.gates.len()
            invariant
                m == self@,
                i <= self.gates.len(),
                forall|t: int| 0 <= t < i ==> #[trigger] gate_wf(m, t),
            decreases self.gates.len() - i,
        {
            if !self.gate_ok(i) {
                return false;
            }
            i += 1;
        }
        true
    }

    /// Check that gate output wires strictly increase in stored order.
    fn gates_sorted(&self) -> (r: bool)
        ensures
            r == forall|i: int, j: int|
                0 <= i < j < self@.gates.len() ==> self@.gates[i].out < self@.gates[j].out,
    {
        let ghost m = self@;
        let mut i: usize = 0;
        while i + 1 < self.gates.len()
            invariant
                m == self@,
                self.gates.len() > 0 ==> i < self.gates.len(),
                self.gates.len() == 0 ==> i == 0,
                forall|x: int, y: int| 0 <= x < y <= i ==> m.gates[x].out < m.gates[y].out,
            decreases self.gates.len() - i,
        {
            proof {
                assert(m.gates[i as int] == self.gates@[i as int]@);
                assert(m.gates[i + 1] == self.gates@[i + 1]@);
            }
            if !(self.gates[i].output_wire < self.gates[i + 1].output_wire) {
                return false;
            }
            proof {
                assert forall|x: int, y: int|
                    0 <= x < y <= i + 1 implies m.gates[x].out < m.gates[y].out by {
                    if y == i + 1 && x < i {
                        assert(m.gates[x].out < m.gates[i as int].out);
                    }
                }
            }
            i += 1;
        }
        true
    }

    /// Check that no gate writes a primary input wire.
    fn no_input_overwrite(&self) -> (r: bool)
        ensures
            r == forall|i: int|
                0 <= i < self@.gates.len() ==> !is_primary_input(self@, #[trigger] self@.gates[i].out),
    {
        let ghost m = self@;
        let mut i: usize = 0;
        while i < self.gates.len()
            invariant
                m == self@,
                i <= self.gates.len(),
                forall|t: int| 0 <= t < i ==> !is_primary_input(m, #[trigger] m.gates[t].out),
            decreases self.gates.len() - i,
        {
            let w = self.gates[i].output_wire;
            proof {
                assert(m.gates[i as int] == self.gates@[i as int]@);
                assert(m.gates[i as int].out == w as int);
            }
            if contains_wire(&self.a_input_wires, w) || contains_wire(&self.b_input_wires, w) {
                return false;
            }
            i += 1;
        }
        true
    }

    /// Check that every reported output wire is in range and available.
    fn outputs_ok(&self) -> (r: bool)
        ensures
            r == ((forall|i: int|
                0 <= i < self@.outputs.len() ==> 0 <= #[trigger] self@.outputs[i] < self@.n_wires)
                && (forall|i: int|
                0 <= i < self@.outputs.len() ==> wire_available(self@, #[trigger] self@.outputs[i]))),
    {
        let ghost m = self@;
        let mut i: usize = 0;
        while i < self.outputs.len()
            invariant
                m == self@,
                i <= self.outputs.len(),
                forall|t: int| 0 <= t < i ==> 0 <= #[trigger] m.outputs[t] < m.n_wires,
                forall|t: int| 0 <= t < i ==> wire_available(m, #[trigger] m.outputs[t]),
            decreases self.outputs.len() - i,
        {
            let w = self.outputs[i];
            proof {
                assert(m.outputs[i as int] == w as int);
            }
            if !(w < self.n_wires) {
                return false;
            }
            if !self.wire_is_available(w) {
                return false;
            }
            i += 1;
        }
        true
    }

    /// Decide the full circuit invariant `wf` at run time: a circuit that
    /// passes can be evaluated safely; one that fails (a cycle, a wire
    /// written twice, a dangling reference) is rejected up front.
    pub fn validate(&self) -> (r: bool)
        ensures
            r == wf(self@),
    {
        self.gates_all_ok() && self.gates_sorted() && self.no_input_overwrite()
            && wires_in_range(&self.a_input_wires, self.n_wires)
            && wires_in_range(&self.b_input_wires, self.n_wires)
            && wires_distinct_exec(&self.a_input_wires)
            && wires_distinct_exec(&self.b_input_wires)
            && wires_disjoint_exec(&self.a_input_wires, &self.b_input_wires) && self.outputs_ok()
    }
}

/// Check that every wire in the list is below `n`.
fn wires_in_range(v: &Vec<usize>, n: usize) -> (r: bool)
    ensures
        r == forall|i: int|
            0 <= i < wires_model(v@).len() ==> 0 <= #[trigger] wires_model(v@)[i] < n as int,
{
    let ghost s = wires_model(v@);
    let mut i: usize = 0;
    while i < v.len()
        invariant
            s == wires_model(v@),
            i <= v.len(),
            forall|t: int| 0 <= t < i ==> 0 <= #[trigger] s[t] < n as int,
        decreases v.len() - i,
    {
        proof {
            assert(s[i as int] == v@[i as int] as int);
        }
        if !(v[i] < n) {
            return false;
        }
        i += 1;
    }
    true
}

/// Check that the wire list holds no wire twice.
fn wires_distinct_exec(v: &Vec<usize>) -> (r: bool)
    ensures
        r == wires_distinct(wires_model(v@)),
{
    let ghost s = wires_model(v@);
    let mut i: usize = 0;
    while i < v.len()
        invariant
            s == wires_model(v@),
            i <= v.len(),
            forall|x: int, y: int| 0 <= x < y < s.len() && x < i ==> s[x] != s[y],
        decreases v.len() - i,
    {
        let mut j: usize = i + 1;
        while j < v.len()
            invariant
                s == wires_model(v@),
                i < j,
                i < v.len(),
                j <= v.len(),
                forall|y: int| i < y < j ==> s[i as int] != s[y],
            decreases v.len() - j,
        {
            proof {
                assert(s[i as int] == v@[i as int] as int);
                assert(s[j as int] == v@[j as int] as int);
            }
            if v[i] == v[j] {
                return false;
            }
            j += 1;
        }
        i += 1;
    }
    true
}

/// Check that the two wire lists share no wire.
fn wires_disjoint_exec(a: &Vec<usize>, b: &Vec<usize>) -> (r: bool)
    ensures
        r == wires_disjoint(wires_model(a@), wires_model(b@)),
{
    let ghost s = wires_model(a@);
    let ghost t = wires_model(b@);
    let mut i: usize = 0;
    while i < a.len()
        invariant
            s == wires_model(a@),
            t == wires_model(b@),
            i <= a.len(),
            forall|x: int, y: int| 0 <= x < i && 0 <= y < t.len() ==> s[x] != t[y],
        decreases a.len() - i,
    {
        proof {
            assert(s[i as int] == a@[i as int] as int);
        }
        if contains_wire(b, a[i]) {
            return false;
        }
        i += 1;
    }
    true
}

} // verus!
