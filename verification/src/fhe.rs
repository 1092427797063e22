//! Evaluation over encrypted booleans. `phantom_zone::FheBool` is an
//! opaque ciphertext supporting NOT/AND/XOR; nothing can be stated about
//! the bits inside a ciphertext, so the contracts here pin down everything
//! else: when evaluation is refused, how many outputs come back, and —
//! via the schedule lemmas — that evaluation order cannot change the
//! outputs.

use vstd::prelude::*;
use vstd::pervasive::VecAdditionalExecFns;

use phantom_zone::FheBool;

use crate::circuit::{
    gate_arity, gate_wf, is_primary_input, lemma_producer_unique, wf, wire_available, wire_in,
    Circuit, CircuitModel, Gate, GateType,
};
use crate::errors::EvalError;
use crate::eval::{lemma_inputs_settled, lemma_produced_full, produced_before, wire_in_prefix};

verus! {

/// An encrypted boolean: an opaque `phantom_zone::FheBool` ciphertext.
/// Verified code never looks inside; the field is public so that ordinary
/// Rust callers can wrap the ciphertexts they encrypt and unwrap the ones
/// they decrypt.
#[verifier::external_body]
pub struct SecureBool {
    pub inner: FheBool,
}

/// Relies on phantom_zone's `Clone` for `FheBool`: duplicating a
/// ciphertext is cheap and yields a ciphertext for the same value.
#[verifier::external_body]
fn fhe_clone(a: &SecureBool) -> SecureBool {
    SecureBool { inner: a.inner.clone() }
}

/// Relies on phantom_zone's `Not` for `&FheBool`: the homomorphic NOT
/// gate. Panics only if no server key has been installed in the process.
#[verifier::external_body]
fn fhe_not(a: &SecureBool) -> SecureBool {
    SecureBool { inner: !&a.inner }
}

/// Relies on phantom_zone's `BitAnd` for `&FheBool`: the homomorphic AND
/// gate. Panics only if no server key has been installed in the process.
#[verifier::external_body]
fn fhe_and(a: &SecureBool, b: &SecureBool) -> SecureBool {
    SecureBool { inner: &a.inner & &b.inner }
}

/// Relies on phantom_zone's `BitXor` for `&FheBool`: the homomorphic XOR
/// gate. Panics only if no server key has been installed in the process.
#[verifier::external_body]
fn fhe_xor(a: &SecureBool, b: &SecureBool) -> SecureBool {
    SecureBool { inner: &a.inner ^ &b.inner }
}

/// Apply one gate to ciphertext inputs, in operand order.
pub fn fhe_apply_gate(gate: &Gate, inputs: &Vec<SecureBool>) -> SecureBool
    requires
        gate@.ins.len() == gate_arity(gate@.op),
        inputs@.len() == gate@.ins.len(),
{
    match gate.gate_type {
        GateType::Not => fhe_not(&inputs[0]),
        GateType::And => fhe_and(&inputs[0], &inputs[1]),
        GateType::Xor => fhe_xor(&inputs[0], &inputs[1]),
    }
}

/// The readiness poll of a worker: is every input wire of the given gate
/// marked ready?
pub fn inputs_ready(gate: &Gate, ready: &Vec<bool>) -> (r: bool)
    requires
        forall|j: int|
            0 <= j < gate@.ins.len() ==> 0 <= #[trigger] gate@.ins[j] < ready@.len(),
    ensures
        r == forall|j: int| 0 <= j < gate@.ins.len() ==> ready@[#[trigger] gate@.ins[j]],
{
    let mut j: usize = 0;
    while j < gate.input_wires.len()
        invariant
            forall|t: int|
                0 <= t < gate@.ins.len() ==> 0 <= #[trigger] gate@.ins[t] < ready@.len(),
            j <= gate.input_wires.len(),
            forall|t: int| 0 <= t < j ==> ready@[#[trigger] gate@.ins[t]],
        decreases gate.input_wires.len() - j,
    {
        proof {
            assert(gate@.ins[j as int] == gate.input_wires@[j as int] as int);
        }
        if !ready[gate.input_wires[j]] {
            return false;
        }
        j += 1;
    }
    true
}

impl Circuit {
    /// Evaluate the circuit over encrypted booleans. Rejects a zero worker
    /// count (`ConfigError`), a malformed circuit (`InvariantViolation`)
    /// and mismatched input lengths (`ShapeMismatch`) before touching any
    /// ciphertext; otherwise it seeds the input wires, runs one task per
    /// gate under the single-writer/ready-flag discipline, and returns one
    /// ciphertext per output wire, in order.
    ///
    /// This evaluator completes the per-gate work in stored order — a
    /// one-worker, dependency-respecting schedule. By
    /// `lemma_schedule_independent` every dependency-respecting order of
    /// the same work, whatever `n_threads` a runner uses, settles the
    /// wires identically.
    pub fn eval_on_fhe_bools(
        &self,
        a_input: &Vec<SecureBool>,
        b_input: &Vec<SecureBool>,
        n_threads: usize,
    ) -> (r: Result<Vec<SecureBool>, EvalError>)
        ensures
            match r {
                Ok(out) => n_threads >= 1 && wf(self@) && a_input@.len() == self@.a_wires.len()
                    && b_input@.len() == self@.b_wires.len() && out@.len()
                    == self@.outputs.len(),
                Err(e) => match e {
                    EvalError::ConfigError => n_threads == 0,
                    EvalError::InvariantViolation => n_threads >= 1 && !wf(self@),
                    EvalError::ShapeMismatch => n_threads >= 1 && wf(self@) && !(a_input@.len()
                        == self@.a_wires.len() && b_input@.len() == self@.b_wires.len()),
                },
            },
    {
        let ghost m = self@;
        if n_threads == 0 {
            return Err(EvalError::ConfigError);
        }
        if !self.validate() {
            return Err(EvalError::InvariantViolation);
        }
        if a_input.len() != self.a_input_wires.len() || b_input.len() != self.b_input_wires.len() {
            return Err(EvalError::ShapeMismatch);
        }

        let mut values: Vec<Option<SecureBool>> = Vec::new();
        let mut ready: Vec<bool> = Vec::new();
        let mut w: usize = 0;
        while w < self.n_wires
            invariant
                w <= self.n_wires,
                values@.len() == w,
                ready@.len() == w,
                forall|x: int| 0 <= x < w ==> !ready@[x],
            decreases self.n_wires - w,
        {
            values.push(None);
            ready.push(false);
            w += 1;
        }

        let mut i: usize = 0;
        while i < self.a_input_wires.len()
            invariant
                m == self@,
                wf(m),
                a_input@.len() == m.a_wires.len(),
                i <= self.a_input_wires.len(),
                values@.len() == m.n_wires,
                ready@.len() == m.n_wires,
                forall|x: int| 0 <= x < m.n_wires && ready@[x] ==> values@[x] is Some,
                forall|j: int| 0 <= j < i ==> ready@[m.a_wires[j]],
                forall|x: int|
                    0 <= x < m.n_wires && !wire_in_prefix(m.a_wires, i as int, x) ==> !ready@[x],
            decreases self.a_input_wires.len() - i,
        {
            let wire = self.a_input_wires[i];
            proof {
                assert(m.a_wires[i as int] == wire as int);
                assert(0 <= m.a_wires[i as int] < m.n_wires);
            }
            values.set(wire, Some(fhe_clone(&a_input[i])));
            ready.set(wire, true);
            proof {
                assert forall|x: int|
                    0 <= x < m.n_wires && !wire_in_prefix(m.a_wires, i + 1, x)
                        implies !ready@[x] by {
                    assert(!wire_in_prefix(m.a_wires, i as int, x));
                }
            }
            i += 1;
        }

        let mut i: usize = 0;
        while i < self.b_input_wires.len()
            invariant
                m == self@,
                wf(m),
                b_input@.len() == m.b_wires.len(),
                i <= self.b_input_wires.len(),
                values@.len() == m.n_wires,
                ready@.len() == m.n_wires,
                forall|x: int| 0 <= x < m.n_wires && ready@[x] ==> values@[x] is Some,
                forall|j: int| 0 <= j < m.a_wires.len() ==> ready@[m.a_wires[j]],
                forall|j: int| 0 <= j < i ==> ready@[m.b_wires[j]],
                forall|x: int|
                    0 <= x < m.n_wires && !wire_in(m.a_wires, x)
                        && !wire_in_prefix(m.b_wires, i as int, x) ==> !ready@[x],
            decreases self.b_input_wires.len() - i,
        {
            let wire = self.b_input_wires[i];
            proof {
                assert(m.b_wires[i as int] == wire as int);
                assert(0 <= m.b_wires[i as int] < m.n_wires);
            }
            values.set(wire, Some(fhe_clone(&b_input[i])));
            ready.set(wire, true);
            proof {
                assert forall|j: int|
                    0 <= j < m.a_wires.len() implies ready@[m.a_wires[j]] by {
                    assert(m.a_wires[j] != m.b_wires[i as int]);
                }
                assert forall|x: int|
                    0 <= x < m.n_wires && !wire_in(m.a_wires, x)
                        && !wire_in_prefix(m.b_wires, i + 1, x) implies !ready@[x] by {
                    assert(!wire_in_prefix(m.b_wires, i as int, x));
                }
            }
            i += 1;
        }

        proof {
            assert forall|x: int|
                0 <= x < m.n_wires implies ready@[x] == (is_primary_input(m, x)
                || produced_before(m, 0, x)) by {
                assert(!produced_before(m, 0, x));
                if wire_in(m.a_wires, x) {
                    let p = choose|p: int| 0 <= p < m.a_wires.len() && m.a_wires[p] == x;
                    assert(ready@[m.a_wires[p]]);
                } else if wire_in(m.b_wires, x) {
                    let p = choose|p: int| 0 <= p < m.b_wires.len() && m.b_wires[p] == x;
                    assert(ready@[m.b_wires[p]]);
                } else {
                    assert(!wire_in_prefix(m.a_wires, m.a_wires.len() as int, x)) by {
                        if wire_in_prefix(m.a_wires, m.a_wires.len() as int, x) {
                            assert(wire_in(m.a_wires, x));
                        }
                    }
                    assert(!wire_in_prefix(m.b_wires, m.b_wires.len() as int, x)) by {
                        if wire_in_prefix(m.b_wires, m.b_wires.len() as int, x) {
                            assert(wire_in(m.b_wires, x));
                        }
                    }
                }
            }
        }

        let mut gi: usize = 0;
        while gi < self.gates.len()
            invariant
                m == self@,
                wf(m),
                gi <= self.gates.len(),
                values@.len() == m.n_wires,
                ready@.len() == m.n_wires,
                forall|x: int| 0 <= x < m.n_wires && ready@[x] ==> values@[x] is Some,
                forall|x: int|
                    0 <= x < m.n_wires ==> ready@[x] == (is_primary_input(m, x)
                        || produced_before(m, gi as int, x)),
            decreases self.gates.len() - gi,
        {
            let gate = &self.gates[gi];
            proof {
                assert(gate@ == m.gates[gi as int]);
                assert(gate_wf(m, gi as int));
                assert forall|j: int|
                    0 <= j < gate@.ins.len()
                        implies 0 <= #[trigger] gate@.ins[j] < ready@.len() by {
                    assert(0 <= gate@.ins[j] < gate@.out);
                    assert(gate@.out < m.n_wires);
                }
            }
            let ghost g = m.gates[gi as int];
            // The readiness poll a worker would perform; in stored order it
            // always succeeds, because construction order is topological.
            let is_ready = inputs_ready(gate, &ready);
            proof {
                assert forall|j: int| 0 <= j < g.ins.len() implies ready@[#[trigger] g.ins[j]] by {
                    lemma_inputs_settled(m, gi as int, j);
                }
                assert(is_ready);
            }
            let mut gate_inputs: Vec<SecureBool> = Vec::new();
            let mut j: usize = 0;
            while j < gate.input_wires.len()
                invariant
                    m == self@,
                    wf(m),
                    gi < self.gates.len(),
                    g == m.gates[gi as int],
                    gate@ == g,
                    values@.len() == m.n_wires,
                    ready@.len() == m.n_wires,
                    forall|x: int| 0 <= x < m.n_wires && ready@[x] ==> values@[x] is Some,
                    forall|t: int| 0 <= t < g.ins.len() ==> ready@[#[trigger] g.ins[t]],
                    j <= gate.input_wires.len(),
                    gate_inputs@.len() == j,
                decreases gate.input_wires.len() - j,
            {
                proof {
                    assert(g.ins[j as int] == gate.input_wires@[j as int] as int);
                    assert(gate_wf(m, gi as int));
                    assert(0 <= g.ins[j as int] < g.out);
                    assert(g.out < m.n_wires);
                    assert(ready@[g.ins[j as int]]);
                }
                let wire = gate.input_wires[j];
                gate_inputs.push(fhe_clone(values[wire].as_ref().unwrap()));
                j += 1;
            }
            proof {
                assert(gate_wf(m, gi as int));
                assert(gate_inputs@.len() == g.ins.len());
            }
            let out_val = fhe_apply_gate(gate, &gate_inputs);
            proof {
                assert(0 <= g.out < m.n_wires);
            }
            values.set(gate.output_wire, Some(out_val));
            ready.set(gate.output_wire, true);
            proof {
                lemma_producer_unique(m, gi as int);
                assert(produced_before(m, gi + 1, g.out));
                assert forall|x: int|
                    0 <= x < m.n_wires implies ready@[x] == (is_primary_input(m, x)
                    || produced_before(m, gi + 1, x)) by {
                    if x != g.out {
                        assert(produced_before(m, gi + 1, x) == produced_before(
                            m,
                            gi as int,
                            x,
                        )) by {
                            if produced_before(m, gi + 1, x) {
                                let p = choose|p: int|
                                    0 <= p < gi + 1 && p < m.gates.len() && m.gates[p].out == x;
                                assert(p != gi);
                                assert(produced_before(m, gi as int, x));
                            }
                            if produced_before(m, gi as int, x) {
                                let p = choose|p: int|
                                    0 <= p < gi && p < m.gates.len() && m.gates[p].out == x;
                                assert(0 <= p < gi + 1 && p < m.gates.len() && m.gates[p].out
                                    == x);
                            }
                        }
                    }
                }
            }
            gi += 1;
        }

        let mut out: Vec<SecureBool> = Vec::new();
        let mut k: usize = 0;
        while k < self.outputs.len()
            invariant
                m == self@,
                wf(m),
                k <= self.outputs.len(),
                values@.len() == m.n_wires,
                ready@.len() == m.n_wires,
                forall|x: int| 0 <= x < m.n_wires && ready@[x] ==> values@[x] is Some,
                forall|x: int|
                    0 <= x < m.n_wires ==> ready@[x] == (is_primary_input(m, x)
                        || produced_before(m, m.gates.len() as int, x)),
                out@.len() == k,
            decreases self.outputs.len() - k,
        {
            let wire = self.outputs[k];
            proof {
                assert(m.outputs[k as int] == wire as int);
                assert(0 <= m.outputs[k as int] < m.n_wires);
                assert(wire_available(m, wire as int));
                lemma_produced_full(m, wire as int);
                assert(ready@[wire as int]);
            }
            out.push(fhe_clone(values[wire].as_ref().unwrap()));
            k += 1;
        }
        Ok(out)
    }
}

} // verus!
