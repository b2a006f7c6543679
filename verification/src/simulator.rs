use std::collections::VecDeque;
use vstd::prelude::*;

use crate::text::{oscillation_message, oscillation_text};
use crate::types::{GateType, PrimitiveGate};

verus! {

/// The mathematical state of a simulator: the gates, their current output
/// values, the dependents of each gate (the gates to re-evaluate when its
/// output changes), the pending event queue and its membership flags.
pub struct SimModel {
    pub gates: Seq<PrimitiveGate>,
    pub states: Seq<bool>,
    pub deps: Seq<Seq<usize>>,
    pub queue: Seq<usize>,
    pub in_queue: Seq<bool>,
}

/// The output value of a freshly added gate: a NAND with floating inputs
/// reads `!(0 && 0) == 1`; inputs and outputs start at 0.
pub open spec fn initial_state(gate_type: GateType) -> bool {
    match gate_type {
        GateType::Nand => true,
        GateType::Input | GateType::Output => false,
    }
}

/// A gate with both inputs floating.
pub open spec fn unconnected_gate(gate_type: GateType) -> PrimitiveGate {
    PrimitiveGate { gate_type, input_a_source: None, input_b_source: None }
}

/// `gate` with the input `port` (0 for A, 1 for B) driven by `source`.
pub open spec fn with_input(gate: PrimitiveGate, port: u8, source: usize) -> PrimitiveGate {
    if port == 0 {
        PrimitiveGate { input_a_source: Some(source), ..gate }
    } else {
        PrimitiveGate { input_b_source: Some(source), ..gate }
    }
}

pub open spec fn source_in_range(src: Option<usize>, n: nat) -> bool {
    match src {
        Some(s) => s < n,
        None => true,
    }
}

impl SimModel {
    pub open spec fn len(self) -> nat {
        self.gates.len()
    }

    /// The logic value read from an input port: a floating input reads 0.
    pub open spec fn source_value(self, src: Option<usize>) -> bool {
        match src {
            Some(s) => self.states[s as int],
            None => false,
        }
    }

    /// The value gate `g` computes from the current values of its inputs.
    pub open spec fn eval(self, g: int) -> bool {
        let gate = self.gates[g];
        match gate.gate_type {
            GateType::Input => self.states[g],
            GateType::Output => self.source_value(gate.input_a_source),
            GateType::Nand => !(self.source_value(gate.input_a_source) && self.source_value(
                gate.input_b_source,
            )),
        }
    }

    /// `g` is recorded as a dependent of every gate that drives one of its inputs.
    pub open spec fn registered(self, g: int) -> bool {
        &&& (self.gates[g].input_a_source matches Some(s) ==> self.deps[s as int].contains(
            g as usize,
        ))
        &&& (self.gates[g].input_b_source matches Some(s) ==> self.deps[s as int].contains(
            g as usize,
        ))
    }

    /// Structural well-formedness: every index is in range, the membership
    /// flags mirror the queue, the queue holds no gate twice, and every
    /// driven gate is registered with its drivers.
    pub open spec fn wf(self) -> bool {
        &&& self.states.len() == self.gates.len()
        &&& self.deps.len() == self.gates.len()
        &&& self.in_queue.len() == self.gates.len()
        &&& self.len() <= usize::MAX
        &&& forall|g: int|
            #![trigger self.gates[g]]
            0 <= g < self.len() ==> source_in_range(self.gates[g].input_a_source, self.len())
                && source_in_range(self.gates[g].input_b_source, self.len())
        &&& forall|s: int, k: int|
            0 <= s < self.len() && 0 <= k < self.deps[s].len() ==> #[trigger] self.deps[s][k]
                < self.len()
        &&& forall|i: int| 0 <= i < self.queue.len() ==> #[trigger] self.queue[i] < self.len()
        &&& forall|g: int|
            0 <= g < self.len() ==> (#[trigger] self.in_queue[g] <==> self.queue.contains(
                g as usize,
            ))
        &&& self.queue.no_duplicates()
        &&& forall|g: int| 0 <= g < self.len() ==> #[trigger] self.registered(g)
    }

    /// Every gate that is not waiting in the queue shows the value that its
    /// inputs give it.
    pub open spec fn settled_except_queued(self) -> bool {
        forall|g: int|
            0 <= g < self.len() && !self.in_queue[g] ==> #[trigger] self.states[g] == self.eval(g)
    }

    /// Every gate shows the value that its inputs give it.
    pub open spec fn is_stable(self) -> bool {
        forall|g: int| 0 <= g < self.len() ==> #[trigger] self.states[g] == self.eval(g)
    }

    pub open spec fn enqueue(self, i: usize) -> SimModel {
        if self.in_queue[i as int] {
            self
        } else {
            SimModel {
                queue: self.queue.push(i),
                in_queue: self.in_queue.update(i as int, true),
                ..self
            }
        }
    }

    /// Enqueues the gates of `ds` in order.
    pub open spec fn enqueue_all(self, ds: Seq<usize>) -> SimModel
        decreases ds.len(),
    {
        if ds.len() == 0 {
            self
        } else {
            self.enqueue_all(ds.drop_last()).enqueue(ds.last())
        }
    }

    /// Removes the head of the queue.
    pub open spec fn pop(self) -> SimModel {
        SimModel {
            queue: self.queue.drop_first(),
            in_queue: self.in_queue.update(self.queue[0] as int, false),
            ..self
        }
    }

    /// One event: the head gate is taken off the queue and re-evaluated; if
    /// its value changes, its dependents are queued.
    pub open spec fn step(self) -> SimModel {
        let idx = self.queue[0] as int;
        let m = self.pop();
        let v = m.eval(idx);
        if m.states[idx] != v {
            SimModel { states: m.states.update(idx, v), ..m }.enqueue_all(m.deps[idx])
        } else {
            m
        }
    }

    /// The state after `n` events (or after the queue runs empty).
    pub open spec fn run(self, n: nat) -> SimModel
        decreases n,
    {
        if n == 0 {
            self
        } else {
            let p = self.run((n - 1) as nat);
            if p.queue.len() > 0 {
                p.step()
            } else {
                p
            }
        }
    }

    /// The model with the value of gate `g` replaced by `v`.
    pub open spec fn with_state(self, g: int, v: bool) -> SimModel {
        SimModel { states: self.states.update(g, v), ..self }
    }

    pub open spec fn empty() -> SimModel {
        SimModel {
            gates: Seq::empty(),
            states: Seq::empty(),
            deps: Seq::empty(),
            queue: Seq::empty(),
            in_queue: Seq::empty(),
        }
    }

    /// The model after appending an unconnected gate of `gate_type` and
    /// queueing it.
    pub open spec fn add_gate(self, gate_type: GateType) -> SimModel {
        SimModel {
            gates: self.gates.push(unconnected_gate(gate_type)),
            states: self.states.push(initial_state(gate_type)),
            deps: self.deps.push(Seq::empty()),
            in_queue: self.in_queue.push(false),
            ..self
        }.enqueue(self.len() as usize)
    }

    /// The model after driving input `port` of `target` from `source`.
    pub open spec fn connect(self, source: usize, target: usize, port: u8) -> SimModel {
        SimModel {
            gates: self.gates.update(target as int, with_input(self.gates[target as int], port, source)),
            deps: self.deps.update(source as int, self.deps[source as int].push(target)),
            ..self
        }.enqueue(target)
    }

    /// The model after an input gate is set to `value`.
    pub open spec fn set_input(self, gate_idx: usize, value: bool) -> SimModel {
        if self.states[gate_idx as int] != value {
            SimModel {
                states: self.states.update(gate_idx as int, value),
                ..self
            }.enqueue_all(self.deps[gate_idx as int])
        } else {
            self
        }
    }
}

/// An event-driven simulator of a network of primitive gates.
pub struct Simulator {
    pub gates: Vec<PrimitiveGate>,
    pub states: Vec<bool>,
    pub dependents: Vec<Vec<usize>>,
    pub event_queue: VecDeque<usize>,
    pub in_queue: Vec<bool>,
}

impl View for Simulator {
    type V = SimModel;

    open spec fn view(&self) -> SimModel {
        SimModel {
            gates: self.gates@,
            states: self.states@,
            deps: self.dependents@.map_values(|d: Vec<usize>| d@),
            queue: self.event_queue@,
            in_queue: self.in_queue@,
        }
    }
}

// ---------------------------------------------------------------------------
// Lemmas on the model
// ---------------------------------------------------------------------------

/// Queueing a gate keeps the model well formed, leaves gates, values and
/// dependents alone, marks it queued and changes no other flag.
pub proof fn lemma_enqueue(m: SimModel, i: usize)
    requires
        m.wf(),
        i < m.len(),
    ensures
        m.enqueue(i).wf(),
        m.enqueue(i).gates == m.gates,
        m.enqueue(i).states == m.states,
        m.enqueue(i).deps == m.deps,
        m.enqueue(i).in_queue[i as int],
        forall|g: int| 0 <= g < m.len() && g != i ==> m.enqueue(i).in_queue[g] == m.in_queue[g],
        m.enqueue(i).queue.len() >= 1,
        m.queue.len() > 0 ==> m.enqueue(i).queue[0] == m.queue[0],
{
    let r = m.enqueue(i);
    if !m.in_queue[i as int] {
        assert(!m.queue.contains(i));
        assert forall|g: int| 0 <= g < r.len() implies (#[trigger] r.in_queue[g] <==> r.queue.contains(
            g as usize,
        )) by {
            if g == i {
                assert(r.queue[r.queue.len() - 1] == i);
            } else {
                assert(r.queue[m.queue.len() as int] == i);
                if m.queue.contains(g as usize) {
                    let k = choose|k: int| 0 <= k < m.queue.len() && m.queue[k] == g as usize;
                    assert(r.queue[k] == g as usize);
                }
                if r.queue.contains(g as usize) {
                    let k = choose|k: int| 0 <= k < r.queue.len() && r.queue[k] == g as usize;
                    assert(k < m.queue.len());
                    assert(m.queue[k] == g as usize);
                }
            }
        }
        assert forall|g: int| 0 <= g < r.len() implies #[trigger] r.registered(g) by {
            assert(m.registered(g));
        }
        assert forall|a: int, b: int| 0 <= a < r.queue.len() && 0 <= b < r.queue.len() && a != b
            implies r.queue[a] != r.queue[b] by {
            if a < m.queue.len() && b < m.queue.len() {
            } else if a < m.queue.len() {
                assert(m.queue[a] != i);
            } else if b < m.queue.len() {
                assert(m.queue[b] != i);
            }
        }
    }
}

/// Queueing a sequence of in-range gates keeps the model well formed, leaves
/// gates, values and dependents alone, queues every gate of the sequence and
/// unqueues none.
pub proof fn lemma_enqueue_all(m: SimModel, ds: Seq<usize>)
    requires
        m.wf(),
        forall|k: int| 0 <= k < ds.len() ==> #[trigger] ds[k] < m.len(),
    ensures
        m.enqueue_all(ds).wf(),
        m.enqueue_all(ds).gates == m.gates,
        m.enqueue_all(ds).states == m.states,
        m.enqueue_all(ds).deps == m.deps,
        forall|k: int| 0 <= k < ds.len() ==> m.enqueue_all(ds).in_queue[#[trigger] ds[k] as int],
        forall|g: int|
            0 <= g < m.len() && m.in_queue[g] ==> #[trigger] m.enqueue_all(ds).in_queue[g],
        forall|g: int|
            0 <= g < m.len() && !m.in_queue[g] && !ds.contains(g as usize)
                ==> !#[trigger] m.enqueue_all(ds).in_queue[g],
        m.queue.len() > 0 ==> m.enqueue_all(ds).queue.len() > 0,
    decreases ds.len(),
{
    if ds.len() > 0 {
        let p = m.enqueue_all(ds.drop_last());
        lemma_enqueue_all(m, ds.drop_last());
        lemma_enqueue(p, ds.last());
        assert forall|k: int| 0 <= k < ds.len() implies m.enqueue_all(ds).in_queue[#[trigger] ds[k] as int] by {
            if k < ds.len() - 1 {
                assert(ds.drop_last()[k] == ds[k]);
            }
        }
        assert forall|g: int|
            0 <= g < m.len() && !m.in_queue[g] && !ds.contains(g as usize)
            implies !#[trigger] m.enqueue_all(ds).in_queue[g] by {
            if ds.drop_last().contains(g as usize) {
                let k = choose|k: int| 0 <= k < ds.drop_last().len() && ds.drop_last()[k] == g as usize;
                assert(ds[k] == g as usize);
            }
            assert(ds[ds.len() - 1] != g as usize);
        }
    }
}

/// Taking the head off a non-empty queue keeps the model well formed and
/// unqueues exactly the head.
pub proof fn lemma_pop(m: SimModel)
    requires
        m.wf(),
        m.queue.len() > 0,
    ensures
        m.pop().wf(),
        !m.pop().in_queue[m.queue[0] as int],
        forall|g: int| 0 <= g < m.len() && g != m.queue[0] ==> m.pop().in_queue[g] == m.in_queue[g],
{
    let r = m.pop();
    let h = m.queue[0];
    assert forall|g: int| 0 <= g < r.len() implies (#[trigger] r.in_queue[g] <==> r.queue.contains(
        g as usize,
    )) by {
        if r.queue.contains(g as usize) {
            let k = choose|k: int| 0 <= k < r.queue.len() && r.queue[k] == g as usize;
            assert(m.queue[k + 1] == g as usize);
            assert(k + 1 != 0);
        }
        if g != h && m.queue.contains(g as usize) {
            let k = choose|k: int| 0 <= k < m.queue.len() && m.queue[k] == g as usize;
            assert(k != 0);
            assert(r.queue[k - 1] == g as usize);
        }
    }
    assert forall|g: int| 0 <= g < r.len() implies #[trigger] r.registered(g) by {
        assert(m.registered(g));
    }
    assert forall|i: int| 0 <= i < r.queue.len() implies #[trigger] r.queue[i] < r.len() by {
        assert(r.queue[i] == m.queue[i + 1]);
    }
}

/// One event keeps the model well formed and keeps every unqueued gate
/// settled.
pub proof fn lemma_step(m: SimModel)
    requires
        m.wf(),
        m.queue.len() > 0,
    ensures
        m.step().wf(),
        m.step().gates == m.gates,
        m.step().deps == m.deps,
        m.settled_except_queued() ==> m.step().settled_except_queued(),
{
    let idx = m.queue[0] as int;
    let p = m.pop();
    lemma_pop(m);
    let v = p.eval(idx);
    if p.states[idx] != v {
        let q = SimModel { states: p.states.update(idx, v), ..p };
        assert(q.wf()) by {
            assert forall|g: int| 0 <= g < q.len() implies #[trigger] q.registered(g) by {
                assert(p.registered(g));
            }
        }
        assert forall|k: int| 0 <= k < q.deps[idx].len() implies #[trigger] q.deps[idx][k] < q.len() by {
            assert(p.deps[idx][k] < p.len());
        }
        lemma_enqueue_all(q, q.deps[idx]);
        let r = q.enqueue_all(q.deps[idx]);
        if m.settled_except_queued() {
            assert forall|g: int| 0 <= g < r.len() && !r.in_queue[g] implies #[trigger] r.states[g]
                == r.eval(g) by {
                assert(!q.deps[idx].contains(g as usize));
                assert(!p.in_queue[g]);
                if g == idx {
                    // The re-evaluated gate now shows its own evaluation; its value
                    // only feeds its own inputs through a registered dependency.
                    assert(p.registered(g));
                } else {
                    assert(!m.in_queue[g]);
                    assert(m.states[g] == m.eval(g));
                    assert(p.registered(g));
                    assert(p.gates[g].input_a_source == Some(idx as usize) ==> p.deps[idx].contains(
                        g as usize,
                    ));
                    assert(p.gates[g].input_b_source == Some(idx as usize) ==> p.deps[idx].contains(
                        g as usize,
                    ));
                }
            }
        }
    } else {
        if m.settled_except_queued() {
            assert forall|g: int| 0 <= g < p.len() && !p.in_queue[g] implies #[trigger] p.states[g]
                == p.eval(g) by {
                if g != idx {
                    assert(!m.in_queue[g]);
                }
            }
        }
    }
}

/// Any number of events keeps the model well formed, the gates and
/// dependents unchanged, and every unqueued gate settled.
pub proof fn lemma_run(m: SimModel, n: nat)
    requires
        m.wf(),
    ensures
        m.run(n).wf(),
        m.run(n).gates == m.gates,
        m.run(n).deps == m.deps,
        m.settled_except_queued() ==> m.run(n).settled_except_queued(),
    decreases n,
{
    if n > 0 {
        lemma_run(m, (n - 1) as nat);
        let p = m.run((n - 1) as nat);
        if p.queue.len() > 0 {
            lemma_step(p);
        }
    }
}

/// Once the queue has run empty, events change nothing.
pub proof fn lemma_run_empty_stays(m: SimModel, k: nat, n: nat)
    requires
        k <= n,
        m.run(k).queue.len() == 0,
    ensures
        m.run(n) == m.run(k),
    decreases n,
{
    if n > k {
        lemma_run_empty_stays(m, k, (n - 1) as nat);
    }
}


/// Driving an input of `target` from `source` keeps the model well formed
/// and, once `target` is queued, keeps every unqueued gate settled.
pub proof fn lemma_connect(m: SimModel, source: usize, target: usize, port: u8)
    requires
        m.wf(),
        source < m.len(),
        target < m.len(),
        port == 0 || port == 1,
    ensures
        m.connect(source, target, port).wf(),
        m.settled_except_queued() ==> m.connect(source, target, port).settled_except_queued(),
{
    let m1 = SimModel {
        gates: m.gates.update(target as int, with_input(m.gates[target as int], port, source)),
        deps: m.deps.update(source as int, m.deps[source as int].push(target)),
        ..m
    };
    assert forall|s: int, k: int| 0 <= s < m1.len() && 0 <= k < m1.deps[s].len()
        implies #[trigger] m1.deps[s][k] < m1.len() by {
        if s == source {
            if k < m.deps[s].len() {
                assert(m1.deps[s][k] == m.deps[s][k]);
            }
        } else {
            assert(m1.deps[s] == m.deps[s]);
        }
    }
    assert forall|g: int| #![trigger m1.gates[g]] 0 <= g < m1.len() implies source_in_range(
        m1.gates[g].input_a_source,
        m1.len(),
    ) && source_in_range(m1.gates[g].input_b_source, m1.len()) by {
        assert(source_in_range(m.gates[g].input_a_source, m.len()));
        assert(source_in_range(m.gates[g].input_b_source, m.len()));
    }
    assert forall|g: int| 0 <= g < m1.len() implies #[trigger] m1.registered(g) by {
        assert(m.registered(g));
        assert(m1.deps[source as int].contains(target)) by {
            assert(m1.deps[source as int][m.deps[source as int].len() as int] == target);
        }
        if let Some(s) = m.gates[g].input_a_source {
            if s == source {
                if m.deps[s as int].contains(g as usize) {
                    let k = choose|k: int| 0 <= k < m.deps[s as int].len() && m.deps[s as int][k] == g as usize;
                    assert(m1.deps[s as int][k] == g as usize);
                }
            }
        }
        if let Some(s) = m.gates[g].input_b_source {
            if s == source {
                if m.deps[s as int].contains(g as usize) {
                    let k = choose|k: int| 0 <= k < m.deps[s as int].len() && m.deps[s as int][k] == g as usize;
                    assert(m1.deps[s as int][k] == g as usize);
                }
            }
        }
    }
    assert(m1.wf());
    lemma_enqueue(m1, target);
    if m.settled_except_queued() {
        let r = m1.enqueue(target);
        assert forall|g: int| 0 <= g < r.len() && !r.in_queue[g] implies #[trigger] r.states[g] == r.eval(g) by {
            assert(g != target);
            assert(!m.in_queue[g]);
            assert(m.states[g] == m.eval(g));
        }
    }
}

/// Changing the value of a gate keeps the model well formed.
pub proof fn lemma_set_state(m: SimModel, g: int, v: bool)
    requires
        m.wf(),
        0 <= g < m.len(),
    ensures
        m.with_state(g, v).wf(),
{
    let q = m.with_state(g, v);
    assert forall|h: int| 0 <= h < q.len() implies #[trigger] q.registered(h) by {
        assert(m.registered(h));
    }
}

/// Setting an input gate keeps the model well formed and changes the value
/// of that gate alone.
pub proof fn lemma_set_input(m: SimModel, g: usize, v: bool)
    requires
        m.wf(),
        g < m.len(),
    ensures
        m.set_input(g, v).wf(),
        m.set_input(g, v).gates == m.gates,
        m.set_input(g, v).states == m.states.update(g as int, v),
{
    if m.states[g as int] != v {
        let q = m.with_state(g as int, v);
        lemma_set_state(m, g as int, v);
        assert forall|k: int| 0 <= k < q.deps[g as int].len() implies #[trigger] q.deps[g as int][k] < q.len() by {
            assert(m.deps[g as int][k] < m.len());
        }
        lemma_enqueue_all(q, q.deps[g as int]);
    } else {
        assert(m.states.update(g as int, v) =~= m.states);
    }
}

/// Events never change the value of an input gate: an input gate evaluates
/// to its own value.
pub proof fn lemma_run_keeps_inputs(m: SimModel, n: nat)
    requires
        m.wf(),
    ensures
        forall|g: int|
            0 <= g < m.len() && m.gates[g].gate_type == GateType::Input
                ==> #[trigger] m.run(n).states[g] == m.states[g],
    decreases n,
{
    if n > 0 {
        lemma_run_keeps_inputs(m, (n - 1) as nat);
        lemma_run(m, (n - 1) as nat);
        let p = m.run((n - 1) as nat);
        if p.queue.len() > 0 {
            assert forall|g: int|
                0 <= g < m.len() && m.gates[g].gate_type == GateType::Input
                    implies #[trigger] m.run(n).states[g] == m.states[g] by {
                if g != p.queue[0] as int {
                    law_event_touches_only_its_gate(p, g);
                }
                assert(p.run(0) == p);
            }
        }
    }
}

/// A gate is queued at most once. Queueing a gate that is waiting changes
/// nothing in the queue; queueing any other appends it. In both cases the
/// gate is flagged as queued, the flags still match the queue, and no gate
/// occurs twice in it. This holds of any flags and queue that match and
/// hold no gate twice, whatever the rest of the network.
pub proof fn law_enqueue_queues_once(m: SimModel, i: usize)
    requires
        i < m.in_queue.len() <= usize::MAX,
        forall|g: int| 0 <= g < m.in_queue.len() ==> (#[trigger] m.in_queue[g] <==> m.queue.contains(g as usize)),
        m.queue.no_duplicates(),
    ensures
        m.enqueue(i).in_queue[i as int],
        m.in_queue[i as int] ==> m.enqueue(i).queue == m.queue,
        !m.in_queue[i as int] ==> m.enqueue(i).queue == m.queue.push(i),
        m.enqueue(i).in_queue.len() == m.in_queue.len(),
        forall|g: int|
            0 <= g < m.in_queue.len() ==> (#[trigger] m.enqueue(i).in_queue[g] <==> m.enqueue(i).queue.contains(
                g as usize,
            )),
        m.enqueue(i).queue.no_duplicates(),
{
    if !m.in_queue[i as int] {
        let r = m.enqueue(i);
        assert(!m.queue.contains(i));
        assert forall|g: int| 0 <= g < m.in_queue.len() implies (#[trigger] r.in_queue[g] <==> r.queue.contains(
            g as usize,
        )) by {
            if g != i {
                assert(r.in_queue[g] == m.in_queue[g]);
                assert(m.in_queue[g] <==> m.queue.contains(g as usize));
                if r.queue.contains(g as usize) {
                    let k = choose|k: int| 0 <= k < r.queue.len() && r.queue[k] == g as usize;
                    if k < m.queue.len() {
                        assert(m.queue[k] == g as usize);
                    }
                }
                if m.queue.contains(g as usize) {
                    let k = choose|k: int| 0 <= k < m.queue.len() && m.queue[k] == g as usize;
                    assert(r.queue[k] == g as usize);
                }
            } else {
                assert(r.queue[r.queue.len() - 1] == i);
            }
        }
        assert forall|a: int, b: int| 0 <= a < r.queue.len() && 0 <= b < r.queue.len() && a != b implies r.queue[a]
            != r.queue[b] by {
            if a < m.queue.len() && b < m.queue.len() {
            } else if a < m.queue.len() {
                assert(r.queue[a] == m.queue[a]);
            } else if b < m.queue.len() {
                assert(r.queue[b] == m.queue[b]);
            }
        }
    }
}

/// Event-driven evaluation: an event re-evaluates only the head
/// of the queue; no other gate changes its value.
pub proof fn law_event_touches_only_its_gate(m: SimModel, g: int)
    requires
        m.wf(),
        m.queue.len() > 0,
        0 <= g < m.len(),
        g != m.queue[0] as int,
    ensures
        m.step().states[g] == m.states[g],
{
    let idx = m.queue[0] as int;
    let p = m.pop();
    lemma_pop(m);
    if p.states[idx] != p.eval(idx) {
        let q = p.with_state(idx, p.eval(idx));
        lemma_set_state(p, idx, p.eval(idx));
        assert forall|k: int| 0 <= k < q.deps[idx].len() implies #[trigger] q.deps[idx][k] < q.len() by {
            assert(p.deps[idx][k] < p.len());
        }
        lemma_enqueue_all(q, q.deps[idx]);
    }
}

/// A network with no pending event is a fixpoint: propagating it any number
/// of steps changes nothing.
pub proof fn law_quiet_network_is_fixpoint(m: SimModel, n: nat)
    requires
        m.queue.len() == 0,
    ensures
        m.run(n) == m,
{
    lemma_run_empty_stays(m, 0, n);
}

/// A NAND gate whose two inputs are both driven by its own output has no
/// stable value: starting from a settled network, the event queue never runs
/// empty, however many events are processed.
pub proof fn law_self_fed_nand_never_settles(m: SimModel, g: usize, n: nat)
    requires
        m.wf(),
        m.settled_except_queued(),
        g < m.len(),
        m.gates[g as int] == (PrimitiveGate {
            gate_type: GateType::Nand,
            input_a_source: Some(g),
            input_b_source: Some(g),
        }),
    ensures
        m.run(n).queue.len() > 0,
{
    lemma_run(m, n);
    let r = m.run(n);
    if r.queue.len() == 0 {
        assert(!r.queue.contains(g));
        assert(!r.in_queue[g as int]);
        assert(r.states[g as int] == r.eval(g as int));
    }
}

/// `b` has every gate of `a`, each of the same kind (and maybe more gates).
pub open spec fn same_kinds(a: SimModel, b: SimModel) -> bool {
    &&& a.len() <= b.len()
    &&& forall|g: int| 0 <= g < a.len() ==> #[trigger] b.gates[g].gate_type == a.gates[g].gate_type
}

/// Adding a gate keeps the model well formed, and keeps every unqueued
/// gate settled: the new gate is queued.
pub proof fn lemma_add_gate(m0: SimModel, gate_type: GateType)
    requires
        m0.wf(),
        m0.len() < usize::MAX,
    ensures
        (SimModel {
            gates: m0.gates.push(unconnected_gate(gate_type)),
            states: m0.states.push(initial_state(gate_type)),
            deps: m0.deps.push(Seq::empty()),
            in_queue: m0.in_queue.push(false),
            ..m0
        }).wf(),
        m0.add_gate(gate_type).wf(),
        m0.settled_except_queued() ==> m0.add_gate(gate_type).settled_except_queued(),
{
    let index = m0.len() as usize;
    let m1 = SimModel {
        gates: m0.gates.push(unconnected_gate(gate_type)),
        states: m0.states.push(initial_state(gate_type)),
        deps: m0.deps.push(Seq::empty()),
        in_queue: m0.in_queue.push(false),
        ..m0
    };
    assert(!m0.queue.contains(index)) by {
        if m0.queue.contains(index) {
            let k = choose|k: int| 0 <= k < m0.queue.len() && m0.queue[k] == index;
            assert(m0.queue[k] < m0.len());
        }
    }
    assert forall|s: int, k: int| 0 <= s < m1.len() && 0 <= k < m1.deps[s].len()
        implies #[trigger] m1.deps[s][k] < m1.len() by {
        assert(s < m0.len());
        assert(m0.deps[s][k] < m0.len());
    }
    assert forall|g: int| 0 <= g < m1.len() implies (#[trigger] m1.in_queue[g] <==> m1.queue.contains(
        g as usize,
    )) by {
        if g < m0.len() {
            assert(m0.in_queue[g] <==> m0.queue.contains(g as usize));
        }
    }
    assert forall|g: int| 0 <= g < m1.len() implies #[trigger] m1.registered(g) by {
        if g < m0.len() {
            assert(m0.registered(g));
            if let Some(s) = m0.gates[g].input_a_source {
                assert(m1.deps[s as int] == m0.deps[s as int]);
            }
            if let Some(s) = m0.gates[g].input_b_source {
                assert(m1.deps[s as int] == m0.deps[s as int]);
            }
        }
    }
    assert forall|g: int| #![trigger m1.gates[g]] 0 <= g < m1.len() implies source_in_range(
        m1.gates[g].input_a_source,
        m1.len(),
    ) && source_in_range(m1.gates[g].input_b_source, m1.len()) by {
        if g < m0.len() {
            assert(source_in_range(m0.gates[g].input_a_source, m0.len()));
            assert(source_in_range(m0.gates[g].input_b_source, m0.len()));
        }
    }
    assert(m1.wf());
    if m0.settled_except_queued() {
        assert forall|g: int| 0 <= g < m1.len() && !m1.in_queue[g] implies #[trigger] m1.states[g]
            == m1.eval(g) by {
            if g < m0.len() {
                assert(m0.states[g] == m0.eval(g));
                assert(source_in_range(m0.gates[g].input_a_source, m0.len()));
                assert(source_in_range(m0.gates[g].input_b_source, m0.len()));
            }
        }
    }
    lemma_enqueue(m1, index);
}

impl Simulator {
    /// A simulator with no gates.
    pub fn new() -> (s: Self)
        ensures
            s@ == SimModel::empty(),
            s@.wf(),
            s@.is_stable(),
    {
        let s = Self {
            gates: Vec::new(),
            states: Vec::new(),
            dependents: Vec::new(),
            event_queue: VecDeque::new(),
            in_queue: Vec::new(),
        };
        assert(s@.deps =~= Seq::<Seq<usize>>::empty());
        s
    }

    /// Adds a gate of a specific type to the simulator.
    /// Inputs are initially set to None (floating).
    /// Returns the unique index of the added gate.
    pub fn add_gate(&mut self, gate_type: GateType) -> (index: usize)
        requires
            old(self)@.wf(),
        ensures
            index == old(self)@.len(),
            final(self)@ == old(self)@.add_gate(gate_type),
            final(self)@.wf(),
            old(self)@.settled_except_queued() ==> final(self)@.settled_except_queued(),
    {
        let ghost m0 = self@;
        let index = self.gates.len();
        self.gates.push(PrimitiveGate { gate_type, input_a_source: None, input_b_source: None });
        // Floating inputs read as logic 0: a NAND with floating inputs
        // outputs 1; input and output gates start at 0.
        let init = match gate_type {
            GateType::Nand => true,
            GateType::Input | GateType::Output => false,
        };
        self.states.push(init);
        self.dependents.push(Vec::new());
        self.in_queue.push(false);
        let ghost m1 = SimModel {
            gates: m0.gates.push(unconnected_gate(gate_type)),
            states: m0.states.push(initial_state(gate_type)),
            deps: m0.deps.push(Seq::empty()),
            in_queue: m0.in_queue.push(false),
            ..m0
        };
        assert(self@.deps =~= m1.deps);
        assert(self@ == m1);
        proof {
            assert(self.gates.len() == m1.len());
            lemma_add_gate(m0, gate_type);
        }
        self.enqueue(index);
        index
    }

    /// Connects the output of source_idx to target_idx on the specified port.
    /// port is 0 for input_a_source, 1 for input_b_source.
    pub fn connect(&mut self, source_idx: usize, target_idx: usize, port: u8)
        requires
            old(self)@.wf(),
            source_idx < old(self)@.len(),
            target_idx < old(self)@.len(),
            port == 0 || port == 1,
        ensures
            final(self)@ == old(self)@.connect(source_idx, target_idx, port),
            final(self)@.wf(),
            old(self)@.settled_except_queued() ==> final(self)@.settled_except_queued(),
    {
        let ghost m0 = self@;
        let mut gate = self.gates[target_idx];
        if port == 0 {
            gate.input_a_source = Some(source_idx);
        } else {
            gate.input_b_source = Some(source_idx);
        }
        self.gates.set(target_idx, gate);
        self.dependents[source_idx].push(target_idx);
        let ghost m1 = SimModel {
            gates: m0.gates.update(target_idx as int, with_input(m0.gates[target_idx as int], port, source_idx)),
            deps: m0.deps.update(source_idx as int, m0.deps[source_idx as int].push(target_idx)),
            ..m0
        };
        assert(self@.deps =~= m1.deps);
        assert(self@ == m1);
        proof {
            lemma_connect(m0, source_idx, target_idx, port);
        }
        // The target is queued because its connection just changed.
        self.enqueue(target_idx);
    }

    /// Sets the value of an Input gate.
    /// If the state changes, enqueues all dependents for evaluation.
    pub fn set_input(&mut self, gate_idx: usize, value: bool)
        requires
            old(self)@.wf(),
            gate_idx < old(self)@.len(),
            old(self)@.gates[gate_idx as int].gate_type == GateType::Input,
        ensures
            final(self)@ == old(self)@.set_input(gate_idx, value),
            final(self)@.wf(),
            final(self)@.gates == old(self)@.gates,
            old(self)@.settled_except_queued() ==> final(self)@.settled_except_queued(),
    {
        let ghost m0 = self@;
        if self.states[gate_idx] != value {
            self.states.set(gate_idx, value);
            proof {
                lemma_set_state(m0, gate_idx as int, value);
            }
            self.enqueue_dependents(gate_idx);
            proof {
                let q = SimModel { states: m0.states.update(gate_idx as int, value), ..m0 };
                lemma_enqueue_all(q, q.deps[gate_idx as int]);
                if m0.settled_except_queued() {
                    let r = self@;
                    assert forall|g: int| 0 <= g < r.len() && !r.in_queue[g] implies #[trigger] r.states[g]
                        == r.eval(g) by {
                        assert(!q.deps[gate_idx as int].contains(g as usize));
                        assert(m0.registered(g));
                        if g != gate_idx {
                            assert(!m0.in_queue[g]);
                            assert(m0.states[g] == m0.eval(g));
                        }
                    }
                }
            }
        }
    }

    /// Gets the current state of a gate by its index.
    pub fn get_state(&self, gate_idx: usize) -> (r: bool)
        requires
            gate_idx < self@.states.len(),
        ensures
            r == self@.states[gate_idx as int],
    {
        self.states[gate_idx]
    }

    /// Queues every dependent of `idx`, in order.
    fn enqueue_dependents(&mut self, idx: usize)
        requires
            old(self)@.wf(),
            idx < old(self)@.len(),
        ensures
            final(self)@ == old(self)@.enqueue_all(old(self)@.deps[idx as int]),
            final(self)@.wf(),
    {
        let ghost m0 = self@;
        let ghost ds = m0.deps[idx as int];
        let n = self.dependents[idx].len();
        let mut k: usize = 0;
        proof {
            assert(ds.take(0) =~= Seq::<usize>::empty());
            assert forall|j: int| 0 <= j < ds.len() implies #[trigger] ds[j] < m0.len() by {
                assert(m0.deps[idx as int][j] < m0.len());
            }
        }
        while k < n
            invariant
                m0.wf(),
                idx < m0.len(),
                ds == m0.deps[idx as int],
                n == ds.len(),
                k <= n,
                forall|j: int| 0 <= j < ds.len() ==> #[trigger] ds[j] < m0.len(),
                self@ == m0.enqueue_all(ds.take(k as int)),
                self@.wf(),
                self@.deps == m0.deps,
                self.dependents@.len() == m0.len(),
            decreases n - k,
        {
            let d = self.dependents[idx][k];
            proof {
                assert(self@.deps[idx as int] == ds);
                assert(d == ds[k as int]);
                assert(ds.take(k as int + 1).drop_last() =~= ds.take(k as int));
                lemma_enqueue(self@, d);
            }
            self.enqueue(d);
            k += 1;
            proof {
                assert forall|j: int| 0 <= j < ds.take(k as int).len() implies #[trigger] ds.take(
                    k as int,
                )[j] < m0.len() by {}
                lemma_enqueue_all(m0, ds.take(k as int));
            }
        }
        proof {
            assert(ds.take(n as int) =~= ds);
        }
    }

    /// Propagates events through the network using the event queue.
    /// Floating inputs default to false.
    /// Returns the number of events processed or an Err if it exceeds max_steps (oscillation).
    pub fn propagate_events(&mut self, max_steps: usize) -> (r: Result<usize, String>)
        requires
            old(self)@.wf(),
        ensures
            final(self)@.wf(),
            match r {
                Ok(steps) => {
                    &&& steps <= max_steps
                    &&& final(self)@ == old(self)@.run(steps as nat)
                    &&& final(self)@.queue.len() == 0
                    &&& forall|j: nat| j < steps ==> #[trigger] old(self)@.run(j).queue.len() > 0
                },
                Err(e) => {
                    &&& forall|j: nat| j <= max_steps ==> #[trigger] old(self)@.run(j).queue.len() > 0
                    &&& final(self)@ == old(self)@.run(max_steps as nat).pop()
                    &&& e@ == oscillation_text(max_steps as nat)
                },
            },
            r is Ok && old(self)@.settled_except_queued() ==> final(self)@.is_stable(),
    {
        let ghost m0 = self@;
        let mut steps: usize = 0;
        loop
            invariant
                m0 == old(self)@,
                m0.wf(),
                self@.wf(),
                steps <= max_steps,
                self@ == m0.run(steps as nat),
                forall|j: nat| j < steps ==> #[trigger] m0.run(j).queue.len() > 0,
                m0.settled_except_queued() ==> self@.settled_except_queued(),
            decreases max_steps - steps,
        {
            let ghost cur = self@;
            match self.dequeue() {
                None => {
                    proof {
                        if m0.settled_except_queued() {
                            assert forall|g: int| 0 <= g < self@.len() implies #[trigger] self@.states[g]
                                == self@.eval(g) by {
                                assert(!self@.queue.contains(g as usize));
                            }
                        }
                    }
                    return Ok(steps);
                },
                Some(idx) => {
                    proof {
                        lemma_pop(cur);
                    }
                    if steps >= max_steps {
                        proof {
                            assert forall|j: nat| j <= max_steps implies #[trigger] m0.run(j).queue.len() > 0 by {
                                if j < steps {
                                } else {
                                    assert(j == steps);
                                }
                            }
                        }
                        return Err(oscillation_message(max_steps));
                    }
                    let gate = self.gates[idx];
                    let val_a = match gate.input_a_source {
                        Some(s_idx) => self.states[s_idx],
                        None => false,
                    };
                    let val_b = match gate.input_b_source {
                        Some(s_idx) => self.states[s_idx],
                        None => false,
                    };
                    let new_state = match gate.gate_type {
                        GateType::Input => self.states[idx],
                        GateType::Output => val_a,
                        GateType::Nand => !(val_a && val_b),
                    };
                    proof {
                        assert(source_in_range(gate.input_a_source, cur.len()));
                        assert(source_in_range(gate.input_b_source, cur.len()));
                        assert(new_state == self@.eval(idx as int));
                    }
                    if self.states[idx] != new_state {
                        self.states.set(idx, new_state);
                        proof {
                            lemma_set_state(cur.pop(), idx as int, new_state);
                        }
                        self.enqueue_dependents(idx);
                    }
                    proof {
                        lemma_step(cur);
                        assert(self@ == cur.step());
                        assert(m0.run((steps + 1) as nat) == cur.step());
                        lemma_run(m0, (steps + 1) as nat);
                        assert forall|j: nat| j < steps + 1 implies #[trigger] m0.run(j).queue.len() > 0 by {
                            if j < steps {
                            } else {
                                assert(j == steps);
                            }
                        }
                    }
                    steps += 1;
                },
            }
        }
    }

    /// Internal helper to push a gate to the event queue if it isn't already there.
    fn enqueue(&mut self, idx: usize)
        requires
            idx < old(self).in_queue@.len(),
        ensures
            final(self)@ == old(self)@.enqueue(idx),
    {
        if !self.in_queue[idx] {
            self.in_queue.set(idx, true);
            self.event_queue.push_back(idx);
        }
    }

    /// Internal helper to pop a gate from the event queue.
    fn dequeue(&mut self) -> (r: Option<usize>)
        requires
            old(self)@.wf(),
        ensures
            match r {
                Some(i) => old(self)@.queue.len() > 0 && i == old(self)@.queue[0] && final(self)@
                    == old(self)@.pop(),
                None => old(self)@.queue.len() == 0 && final(self)@ == old(self)@,
            },
    {
        if let Some(idx) = self.event_queue.pop_front() {
            proof {
                assert(self.event_queue@ =~= old(self)@.queue.drop_first());
                assert(old(self)@.queue[0] < old(self)@.len());
            }
            self.in_queue.set(idx, false);
            Some(idx)
        } else {
            None
        }
    }
}

} // verus!
