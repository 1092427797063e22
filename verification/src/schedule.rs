//! Dependency-respecting execution schedules. A concurrent evaluation of
//! the circuit is modelled by the order in which gate tasks complete: any
//! order is possible as long as no gate runs before every one of its input
//! wires is ready (seeded, or written by an earlier-completed gate). The
//! lemmas here prove that every such execution settles each wire to its
//! mathematical value `wire_val` — so the result is independent of the
//! schedule, and in particular of the worker count.

use vstd::prelude::*;

use crate::circuit::{
    eval_spec, gate_wf, is_primary_input, lemma_producer_unique, wf, wire_produced, wire_val,
    CircuitModel, GateType,
};
use crate::eval::{mid_val, produced_before};

verus! {

/// Some one of the first `k` scheduled gate tasks writes wire `w`.
pub open spec fn produced_in_sched(m: CircuitModel, sched: Seq<int>, k: int, w: int) -> bool {
    exists|t: int|
        0 <= t < k && t < sched.len() && 0 <= sched[t] < m.gates.len()
            && m.gates[sched[t]].out == w
}

/// Wire `w` is ready when the `k`-th scheduled task starts: it was seeded,
/// or an earlier task wrote it.
pub open spec fn ready_at(m: CircuitModel, sched: Seq<int>, k: int, w: int) -> bool {
    is_primary_input(m, w) || produced_in_sched(m, sched, k, w)
}

/// The `k`-th entry of the schedule names a gate of the circuit, and every
/// input wire of that gate is ready when it runs.
pub open spec fn sched_entry_ok(m: CircuitModel, sched: Seq<int>, k: int) -> bool {
    &&& 0 <= sched[k] < m.gates.len()
    &&& forall|j: int|
        0 <= j < m.gates[sched[k]].ins.len()
            ==> ready_at(m, sched, k, #[trigger] m.gates[sched[k]].ins[j])
}

/// A dependency-respecting schedule: no gate task runs before all of its
/// input wires are ready.
pub open spec fn valid_schedule(m: CircuitModel, sched: Seq<int>) -> bool {
    forall|k: int| 0 <= k < sched.len() ==> #[trigger] sched_entry_ok(m, sched, k)
}

/// Gate `g` appears somewhere in the schedule.
pub open spec fn sched_contains(sched: Seq<int>, g: int) -> bool {
    exists|k: int| 0 <= k < sched.len() && sched[k] == g
}

/// Every gate of the circuit is scheduled (at least once).
pub open spec fn complete_schedule(m: CircuitModel, sched: Seq<int>) -> bool {
    forall|g: int| 0 <= g < m.gates.len() ==> #[trigger] sched_contains(sched, g)
}

/// The wire values after seeding, before any gate task has run.
pub open spec fn seeded(m: CircuitModel, a: Seq<bool>, b: Seq<bool>) -> Seq<bool> {
    Seq::new(m.n_wires as nat, |w: int| mid_val(m, a, b, 0, w))
}

/// Run one gate: read its input wires, apply its operator, write its
/// output wire.
pub open spec fn apply_gate(m: CircuitModel, vals: Seq<bool>, gi: int) -> Seq<bool> {
    let g = m.gates[gi];
    let v = match g.op {
        GateType::Not => !vals[g.ins[0]],
        GateType::And => vals[g.ins[0]] && vals[g.ins[1]],
        GateType::Xor => vals[g.ins[0]] != vals[g.ins[1]],
    };
    vals.update(g.out, v)
}

/// The wire values after the first `k` tasks of the schedule have run.
pub open spec fn run_schedule(
    m: CircuitModel,
    a: Seq<bool>,
    b: Seq<bool>,
    sched: Seq<int>,
    k: int,
) -> Seq<bool>
    decreases k,
{
    if k <= 0 {
        seeded(m, a, b)
    } else {
        apply_gate(m, run_schedule(m, a, b, sched, k - 1), sched[k - 1])
    }
}

/// The value wire `w` holds after the first `k` tasks of a schedule: its
/// settled value once seeded or written, the default `false` before that.
pub open spec fn sched_mid_val(
    m: CircuitModel,
    a: Seq<bool>,
    b: Seq<bool>,
    sched: Seq<int>,
    k: int,
    w: int,
) -> bool {
    if ready_at(m, sched, k, w) {
        wire_val(m, a, b, w)
    } else {
        false
    }
}

/// After any prefix of a dependency-respecting schedule, every wire that
/// has been seeded or written holds its settled value `wire_val`, and every
/// other wire still holds the default. In particular a wire is written at
/// most effectively once: a repeated gate task rewrites the same value.
pub proof fn lemma_run_schedule_settled(
    m: CircuitModel,
    a: Seq<bool>,
    b: Seq<bool>,
    sched: Seq<int>,
    k: int,
)
    requires
        wf(m),
        valid_schedule(m, sched),
        0 <= k <= sched.len(),
    ensures
        run_schedule(m, a, b, sched, k).len() == m.n_wires,
        forall|w: int|
            0 <= w < m.n_wires
                ==> run_schedule(m, a, b, sched, k)[w] == sched_mid_val(m, a, b, sched, k, w),
    decreases k,
{
    if k == 0 {
        assert forall|w: int|
            0 <= w < m.n_wires implies seeded(m, a, b)[w] == sched_mid_val(m, a, b, sched, 0, w) by {
            assert(!produced_in_sched(m, sched, 0, w));
            assert(!produced_before(m, 0, w));
        }
    } else {
        lemma_run_schedule_settled(m, a, b, sched, k - 1);
        let prev = run_schedule(m, a, b, sched, k - 1);
        let cur = run_schedule(m, a, b, sched, k);
        assert(sched_entry_ok(m, sched, k - 1));
        let gi = sched[k - 1];
        let g = m.gates[gi];
        assert(gate_wf(m, gi));
        assert forall|j: int|
            0 <= j < g.ins.len() implies prev[g.ins[j]] == wire_val(m, a, b, g.ins[j]) by {
            assert(ready_at(m, sched, k - 1, g.ins[j]));
            assert(0 <= g.ins[j] < m.n_wires);
            if produced_in_sched(m, sched, k - 1, g.ins[j]) {
                assert(sched_mid_val(m, a, b, sched, k - 1, g.ins[j])
                    == wire_val(m, a, b, g.ins[j]));
            }
        }
        lemma_producer_unique(m, gi);
        assert(!is_primary_input(m, g.out));
        assert(wire_val(m, a, b, g.out) == match g.op {
            GateType::Not => !wire_val(m, a, b, g.ins[0]),
            GateType::And => wire_val(m, a, b, g.ins[0]) && wire_val(m, a, b, g.ins[1]),
            GateType::Xor => wire_val(m, a, b, g.ins[0]) != wire_val(m, a, b, g.ins[1]),
        });
        assert(cur == prev.update(g.out, wire_val(m, a, b, g.out)));
        assert forall|w: int|
            0 <= w < m.n_wires implies cur[w] == sched_mid_val(m, a, b, sched, k, w) by {
            if w == g.out {
                assert(produced_in_sched(m, sched, k, w));
                assert(cur[w] == wire_val(m, a, b, w));
            } else {
                assert(cur[w] == prev[w]);
                assert(prev[w] == sched_mid_val(m, a, b, sched, k - 1, w));
                assert(produced_in_sched(m, sched, k, w) == produced_in_sched(m, sched, k - 1, w))
                    by {
                    if produced_in_sched(m, sched, k, w) {
                        let t = choose|t: int|
                            0 <= t < k && t < sched.len() && 0 <= sched[t] < m.gates.len()
                                && m.gates[sched[t]].out == w;
                        assert(t != k - 1);
                        assert(produced_in_sched(m, sched, k - 1, w));
                    }
                    if produced_in_sched(m, sched, k - 1, w) {
                        let t = choose|t: int|
                            0 <= t < k - 1 && t < sched.len() && 0 <= sched[t] < m.gates.len()
                                && m.gates[sched[t]].out == w;
                        assert(0 <= t < k && t < sched.len() && 0 <= sched[t] < m.gates.len()
                            && m.gates[sched[t]].out == w);
                    }
                }
                assert(ready_at(m, sched, k, w) == ready_at(m, sched, k - 1, w));
                assert(sched_mid_val(m, a, b, sched, k, w)
                    == sched_mid_val(m, a, b, sched, k - 1, w));
            }
        }
    }
}

/// After a complete dependency-respecting schedule has run, every wire
/// holds its settled value.
pub proof fn lemma_complete_run_settles(
    m: CircuitModel,
    a: Seq<bool>,
    b: Seq<bool>,
    sched: Seq<int>,
)
    requires
        wf(m),
        valid_schedule(m, sched),
        complete_schedule(m, sched),
    ensures
        run_schedule(m, a, b, sched, sched.len() as int)
            == Seq::new(m.n_wires as nat, |w: int| wire_val(m, a, b, w)),
{
    let n = sched.len() as int;
    lemma_run_schedule_settled(m, a, b, sched, n);
    let fin = run_schedule(m, a, b, sched, n);
    assert forall|w: int| 0 <= w < m.n_wires implies fin[w] == wire_val(m, a, b, w) by {
        assert(fin[w] == sched_mid_val(m, a, b, sched, n, w));
        if !ready_at(m, sched, n, w) {
            assert(!is_primary_input(m, w));
            assert(!wire_produced(m, w)) by {
                if wire_produced(m, w) {
                    let g = choose|g: int| 0 <= g < m.gates.len() && m.gates[g].out == w;
                    assert(sched_contains(sched, g));
                    let t = choose|t: int| 0 <= t < sched.len() && sched[t] == g;
                    assert(produced_in_sched(m, sched, n, w));
                }
            }
            assert(wire_val(m, a, b, w) == false);
        }
    }
    assert(fin =~= Seq::new(m.n_wires as nat, |w: int| wire_val(m, a, b, w)));
}

/// Law: parallel evaluation is deterministic. Two dependency-respecting
/// executions of all gates — any interleaving that any worker counts could
/// produce — settle every wire identically.
pub proof fn lemma_schedule_independent(
    m: CircuitModel,
    a: Seq<bool>,
    b: Seq<bool>,
    s1: Seq<int>,
    s2: Seq<int>,
)
    requires
        wf(m),
        valid_schedule(m, s1),
        complete_schedule(m, s1),
        valid_schedule(m, s2),
        complete_schedule(m, s2),
    ensures
        run_schedule(m, a, b, s1, s1.len() as int) == run_schedule(m, a, b, s2, s2.len() as int),
{
    lemma_complete_run_settles(m, a, b, s1);
    lemma_complete_run_settles(m, a, b, s2);
}

/// Law: any dependency-respecting execution of all gates reports, at the
/// circuit's output wires, exactly the reference evaluation.
pub proof fn lemma_concurrent_matches_reference(
    m: CircuitModel,
    a: Seq<bool>,
    b: Seq<bool>,
    sched: Seq<int>,
)
    requires
        wf(m),
        valid_schedule(m, sched),
        complete_schedule(m, sched),
    ensures
        Seq::new(
            m.outputs.len(),
            |i: int| run_schedule(m, a, b, sched, sched.len() as int)[m.outputs[i]],
        ) == eval_spec(m, a, b),
{
    lemma_complete_run_settles(m, a, b, sched);
    let fin = run_schedule(m, a, b, sched, sched.len() as int);
    assert forall|i: int|
        0 <= i < m.outputs.len() implies fin[m.outputs[i]] == wire_val(m, a, b, m.outputs[i]) by {
        assert(0 <= m.outputs[i] < m.n_wires);
    }
    assert(Seq::new(m.outputs.len(), |i: int| fin[m.outputs[i]]) =~= eval_spec(m, a, b));
}

/// The stored gate order, as a schedule: one task per gate, in file order.
pub open spec fn stored_order(m: CircuitModel) -> Seq<int> {
    Seq::new(m.gates.len(), |k: int| k)
}

/// In a well-formed circuit the stored gate order is itself a
/// dependency-respecting, complete schedule: construction order is a
/// topological order.
pub proof fn lemma_stored_order_valid(m: CircuitModel)
    requires
        wf(m),
    ensures
        valid_schedule(m, stored_order(m)),
        complete_schedule(m, stored_order(m)),
{
    let sched = stored_order(m);
    assert forall|k: int| 0 <= k < sched.len() implies #[trigger] sched_entry_ok(m, sched, k) by {
        assert(sched[k] == k);
        assert(gate_wf(m, k));
        assert forall|j: int|
            0 <= j < m.gates[k].ins.len() implies ready_at(m, sched, k, #[trigger] m.gates[k].ins[j]) by {
            crate::eval::lemma_inputs_settled(m, k, j);
            let w = m.gates[k].ins[j];
            if produced_before(m, k, w) {
                let g = choose|g: int| 0 <= g < k && g < m.gates.len() && m.gates[g].out == w;
                assert(sched[g] == g);
                assert(produced_in_sched(m, sched, k, w));
            }
        }
    }
    assert forall|g: int| 0 <= g < m.gates.len() implies #[trigger] sched_contains(sched, g) by {
        assert(sched[g] == g);
    }
}

/// Law: running the gates in stored order — what the secure evaluator and
/// a one-worker pool do — reports, at the circuit's output wires, exactly
/// the reference evaluation.
pub proof fn lemma_stored_order_matches_reference(m: CircuitModel, a: Seq<bool>, b: Seq<bool>)
    requires
        wf(m),
    ensures
        Seq::new(
            m.outputs.len(),
            |i: int|
                run_schedule(m, a, b, stored_order(m), stored_order(m).len() as int)[m.outputs[i]],
        ) == eval_spec(m, a, b),
{
    lemma_stored_order_valid(m);
    lemma_concurrent_matches_reference(m, a, b, stored_order(m));
}

} // verus!
