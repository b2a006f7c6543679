use vstd::prelude::*;

use std::collections::HashMap;

use crate::instance_map::{InstanceMap, PortMap};
use crate::simulator::{
    same_kinds, lemma_pop, lemma_run, lemma_run_empty_stays, lemma_run_keeps_inputs, lemma_set_input, SimModel,
    Simulator,
};
use crate::text::oscillation_text;
use crate::types::{ChipBlueprint, CompiledClock, GateType, OutputSource};

verus! {

/// The simulation side of the editor: the chip library, the compiled
/// simulator with its instance maps and clocks, and the run controls.
pub struct EngineState {
    pub library: Vec<ChipBlueprint>,
    pub simulator: Simulator,
    /// Canvas component id -> gate of the simulator.
    pub visual_to_sim_map: HashMap<usize, usize>,
    /// (canvas component id, output port) -> gate that drives it.
    pub port_to_sim_gate_map: PortMap,
    pub instance_to_sim_map: InstanceMap<usize>,
    pub instance_outputs: InstanceMap<Vec<OutputSource>>,
    pub active_clocks: Vec<CompiledClock>,
    pub is_playing: bool,
    pub ticks_per_frame: usize,
    pub sim_tick_counter: usize,
    pub propagation_error: Option<String>,
}

impl Default for EngineState {
    fn default() -> (s: Self)
        ensures
            s.library@.len() == 0,
            s.simulator@ == SimModel::empty(),
            s.visual_to_sim_map@ == Map::<usize, usize>::empty(),
            s.port_to_sim_gate_map.wf(),
            s.port_to_sim_gate_map@ == Map::<(usize, usize), usize>::empty(),
            s.instance_to_sim_map.wf(),
            s.instance_to_sim_map@ == Map::<(Seq<usize>, usize), usize>::empty(),
            s.instance_outputs.wf(),
            s.instance_outputs@ == Map::<(Seq<usize>, usize), Seq<OutputSource>>::empty(),
            s.active_clocks@.len() == 0,
            s.is_playing,
            s.ticks_per_frame == 1,
            s.sim_tick_counter == 0,
            s.propagation_error is None,
    {
        EngineState {
            library: Vec::new(),
            simulator: Simulator::new(),
            visual_to_sim_map: HashMap::new(),
            port_to_sim_gate_map: PortMap::new(),
            instance_to_sim_map: InstanceMap::new(),
            instance_outputs: InstanceMap::new(),
            active_clocks: Vec::new(),
            is_playing: true,
            ticks_per_frame: 1,
            sim_tick_counter: 0,
            propagation_error: None,
        }
    }
}

/// The number of ticks between two toggles of a clock: half its period,
/// and at least one.
pub open spec fn half_period(period: usize) -> usize {
    if period / 2 >= 1 {
        period / 2
    } else {
        1
    }
}

/// Every clock drives an input gate of the simulator, and its tick counter
/// can be incremented.
pub open spec fn clocks_valid(m: SimModel, clocks: Seq<CompiledClock>) -> bool {
    forall|k: int|
        0 <= k < clocks.len() ==> {
            &&& (#[trigger] clocks[k]).gate_idx < m.len()
            &&& m.gates[clocks[k].gate_idx as int].gate_type == GateType::Input
            &&& clocks[k].counter < usize::MAX
        }
}

/// Clocks stay valid as gates are added and wired: each keeps its gate, of
/// the same kind.
pub proof fn lemma_clocks_valid_grow(a: SimModel, b: SimModel, clocks: Seq<CompiledClock>)
    requires
        clocks_valid(a, clocks),
        same_kinds(a, b),
    ensures
        clocks_valid(b, clocks),
{
    assert forall|k: int| 0 <= k < clocks.len() implies {
        &&& (#[trigger] clocks[k]).gate_idx < b.len()
        &&& b.gates[clocks[k].gate_idx as int].gate_type == GateType::Input
        &&& clocks[k].counter < usize::MAX
    } by {
        assert(clocks[k].gate_idx < a.len());
    }
}

/// One tick of one clock: its counter advances, and when it reaches half
/// the period the counter restarts and the clock's input gate flips.
pub open spec fn clock_tick(m: SimModel, c: CompiledClock) -> (SimModel, CompiledClock) {
    let counter = c.counter + 1;
    if counter >= half_period(c.period) {
        (m.set_input(c.gate_idx, !m.states[c.gate_idx as int]), CompiledClock { counter: 0, ..c })
    } else {
        (m, CompiledClock { counter: counter as usize, ..c })
    }
}

/// The first `k` clocks ticked in order.
pub open spec fn tick_clocks(m: SimModel, clocks: Seq<CompiledClock>, k: nat) -> (SimModel, Seq<CompiledClock>)
    decreases k,
{
    if k == 0 {
        (m, clocks)
    } else {
        let (m1, cs1) = tick_clocks(m, clocks, (k - 1) as nat);
        let (m2, c2) = clock_tick(m1, cs1[k - 1]);
        (m2, cs1.update(k - 1, c2))
    }
}

/// The event limit of one tick: ten events per gate, and at least 1000.
pub open spec fn step_limit(m: SimModel) -> nat {
    if m.len() * 10 >= 1000 {
        m.len() * 10
    } else {
        1000
    }
}

/// The event queue of `m` runs empty within `max` events.
pub open spec fn settles_within(m: SimModel, max: nat) -> bool {
    exists|k: nat| k <= max && #[trigger] m.run(k).queue.len() == 0
}

/// The state that simulation ticks act on.
pub struct TickState {
    pub sim: SimModel,
    pub clocks: Seq<CompiledClock>,
    pub counter: usize,
    pub error: Option<Seq<char>>,
    pub halted: bool,
}

pub open spec fn next_counter(c: usize) -> usize {
    if c == usize::MAX {
        0
    } else {
        (c + 1) as usize
    }
}

/// One simulation tick: the tick counter advances, every clock ticks, and
/// the network propagates; an oscillation stops the run with its error.
pub open spec fn one_tick(s: TickState) -> TickState {
    let (m1, cs1) = tick_clocks(s.sim, s.clocks, s.clocks.len());
    let max = step_limit(m1);
    if settles_within(m1, max) {
        TickState { sim: m1.run(max), clocks: cs1, counter: next_counter(s.counter), error: None, halted: false }
    } else {
        TickState {
            sim: m1.run(max).pop(),
            clocks: cs1,
            counter: next_counter(s.counter),
            error: Some(oscillation_text(max)),
            halted: true,
        }
    }
}

/// Up to `n` ticks, stopping after the first one that fails.
pub open spec fn run_ticks(s: TickState, n: nat) -> TickState
    decreases n,
{
    if n == 0 {
        s
    } else {
        let p = run_ticks(s, (n - 1) as nat);
        if p.halted {
            p
        } else {
            one_tick(p)
        }
    }
}

/// Two tick states agree on the simulator, clocks, counter and error.
pub open spec fn same_outcome(a: TickState, b: TickState) -> bool {
    &&& a.sim == b.sim
    &&& a.clocks == b.clocks
    &&& a.counter == b.counter
    &&& a.error == b.error
}

pub open spec fn error_view(e: Option<String>) -> Option<Seq<char>> {
    match e {
        Some(s) => Some(s@),
        None => None,
    }
}

impl EngineState {
    pub open spec fn tick_state(&self) -> TickState {
        TickState {
            sim: self.simulator@,
            clocks: self.active_clocks@,
            counter: self.sim_tick_counter,
            error: error_view(self.propagation_error),
            halted: false,
        }
    }

    /// Advances the simulation by `ticks_per_frame` ticks while playing:
    /// each tick advances every clock and propagates the network; a tick
    /// that oscillates records its error and ends the frame.
    pub fn run_simulation_ticks(&mut self)
        requires
            old(self).simulator@.wf(),
            clocks_valid(old(self).simulator@, old(self).active_clocks@),
            old(self).simulator@.len() * 10 <= usize::MAX,
        ensures
            final(self).simulator@.wf(),
            final(self).library@ == old(self).library@,
            final(self).visual_to_sim_map@ == old(self).visual_to_sim_map@,
            final(self).port_to_sim_gate_map@ == old(self).port_to_sim_gate_map@,
            final(self).instance_to_sim_map@ == old(self).instance_to_sim_map@,
            final(self).instance_outputs@ == old(self).instance_outputs@,
            final(self).is_playing == old(self).is_playing,
            final(self).ticks_per_frame == old(self).ticks_per_frame,
            !old(self).is_playing ==> final(self).tick_state() == old(self).tick_state(),
            old(self).is_playing ==> {
                let r = run_ticks(old(self).tick_state(), old(self).ticks_per_frame as nat);
                &&& final(self).simulator@ == r.sim
                &&& final(self).active_clocks@ == r.clocks
                &&& final(self).sim_tick_counter == r.counter
                &&& error_view(final(self).propagation_error) == r.error
            },
    {
        if self.is_playing {
            let ghost s0 = self.tick_state();
            let n = self.ticks_per_frame;
            let mut t: usize = 0;
            while t < n
                invariant_except_break
                    !run_ticks(s0, t as nat).halted,
                    same_outcome(self.tick_state(), run_ticks(s0, t as nat)),
                invariant
                    n == self.ticks_per_frame,
                    s0 == old(self).tick_state(),
                    self.library@ == old(self).library@,
                    self.visual_to_sim_map@ == old(self).visual_to_sim_map@,
                    self.port_to_sim_gate_map@ == old(self).port_to_sim_gate_map@,
                    self.instance_to_sim_map@ == old(self).instance_to_sim_map@,
                    self.instance_outputs@ == old(self).instance_outputs@,
                    self.is_playing == old(self).is_playing,
                    t <= n,
                    self.simulator@.wf(),
                    self.simulator@.len() == s0.sim.len(),
                    s0.sim.len() * 10 <= usize::MAX,
                    clocks_valid(self.simulator@, self.active_clocks@),
                    self.simulator@.gates == s0.sim.gates,
                ensures
                    same_outcome(self.tick_state(), run_ticks(s0, n as nat)),
                    self.simulator@.wf(),
                    self.library@ == old(self).library@,
                    self.is_playing == old(self).is_playing,
                decreases n - t,
            {
                self.sim_tick_counter = self.sim_tick_counter.wrapping_add(1);
                self.tick_all_clocks();
                let max_steps = if self.simulator.gates.len() * 10 >= 1000 {
                    self.simulator.gates.len() * 10
                } else {
                    1000
                };
                let ghost m1 = self.simulator@;
                proof {
                    lemma_run(m1, max_steps as nat);
                }
                match self.simulator.propagate_events(max_steps) {
                    Ok(k) => {
                        self.propagation_error = None;
                        proof {
                            lemma_run_empty_stays(m1, k as nat, max_steps as nat);
                            assert(m1.run(k as nat).queue.len() == 0);
                            assert(settles_within(m1, max_steps as nat));
                            assert(same_outcome(self.tick_state(), one_tick(run_ticks(s0, t as nat))));
                        }
                    },
                    Err(e) => {
                        self.propagation_error = Some(e);
                        proof {
                            assert(!settles_within(m1, max_steps as nat)) by {
                                if settles_within(m1, max_steps as nat) {
                                    let k = choose|k: nat| k <= max_steps && #[trigger] m1.run(k).queue.len() == 0;
                                    assert(m1.run(k).queue.len() > 0);
                                }
                            }
                            assert(same_outcome(self.tick_state(), one_tick(run_ticks(s0, t as nat))));
                            lemma_halted_stays(s0, (t + 1) as nat, n as nat);
                        }
                        break;
                    },
                }
                t += 1;
            }
        }
    }

    /// Ticks every clock once, in order.
    fn tick_all_clocks(&mut self)
        requires
            old(self).simulator@.wf(),
            clocks_valid(old(self).simulator@, old(self).active_clocks@),
        ensures
            (final(self).simulator@, final(self).active_clocks@) == tick_clocks(
                old(self).simulator@,
                old(self).active_clocks@,
                old(self).active_clocks@.len(),
            ),
            final(self).simulator@.wf(),
            final(self).simulator@.gates == old(self).simulator@.gates,
            clocks_valid(final(self).simulator@, final(self).active_clocks@),
            final(self).library@ == old(self).library@,
            final(self).visual_to_sim_map@ == old(self).visual_to_sim_map@,
            final(self).port_to_sim_gate_map@ == old(self).port_to_sim_gate_map@,
            final(self).instance_to_sim_map@ == old(self).instance_to_sim_map@,
            final(self).instance_outputs@ == old(self).instance_outputs@,
            final(self).is_playing == old(self).is_playing,
            final(self).ticks_per_frame == old(self).ticks_per_frame,
            final(self).sim_tick_counter == old(self).sim_tick_counter,
            final(self).propagation_error == old(self).propagation_error,
    {
        let ghost m0 = self.simulator@;
        let ghost c0 = self.active_clocks@;
        let n = self.active_clocks.len();
        let mut k: usize = 0;
        while k < n
            invariant
                n == c0.len(),
                k <= n,
                (self.simulator@, self.active_clocks@) == tick_clocks(m0, c0, k as nat),
                self.simulator@.wf(),
                self.simulator@.gates == m0.gates,
                self.visual_to_sim_map@ == old(self).visual_to_sim_map@,
                self.port_to_sim_gate_map@ == old(self).port_to_sim_gate_map@,
                self.instance_to_sim_map@ == old(self).instance_to_sim_map@,
                self.instance_outputs@ == old(self).instance_outputs@,
                self.active_clocks@.len() == n,
                clocks_valid(self.simulator@, self.active_clocks@),
                forall|j: int| k <= j < n ==> #[trigger] self.active_clocks@[j] == c0[j],
                self.library@ == old(self).library@,
                self.is_playing == old(self).is_playing,
                self.ticks_per_frame == old(self).ticks_per_frame,
                self.sim_tick_counter == old(self).sim_tick_counter,
                self.propagation_error == old(self).propagation_error,
            decreases n - k,
        {
            let mut clock = self.active_clocks[k];
            clock.counter += 1;
            let half_period = if clock.period / 2 >= 1 {
                clock.period / 2
            } else {
                1
            };
            if clock.counter >= half_period {
                clock.counter = 0;
                let current_state = self.simulator.get_state(clock.gate_idx);
                self.simulator.set_input(clock.gate_idx, !current_state);
            }
            self.active_clocks.set(k, clock);
            proof {
                assert forall|j: int| 0 <= j < n implies {
                    &&& (#[trigger] self.active_clocks@[j]).gate_idx < self.simulator@.len()
                    &&& self.simulator@.gates[self.active_clocks@[j].gate_idx as int].gate_type == GateType::Input
                    &&& self.active_clocks@[j].counter < usize::MAX
                } by {
                    if j != k {
                        assert(self.active_clocks@[j] == self.active_clocks@[j]);
                    }
                }
            }
            k += 1;
        }
    }
}

/// The clocks drive pairwise distinct gates.
pub open spec fn clocks_distinct(clocks: Seq<CompiledClock>) -> bool {
    forall|i: int, j: int|
        0 <= i < clocks.len() && 0 <= j < clocks.len() && i != j
            ==> #[trigger] clocks[i].gate_idx != #[trigger] clocks[j].gate_idx
}

/// Whether a clock flips its gate on its next tick.
pub open spec fn flips_next(c: CompiledClock) -> bool {
    c.counter + 1 >= half_period(c.period)
}

/// The counter that a clock holds after its next tick.
pub open spec fn next_clock_counter(c: CompiledClock) -> usize {
    if flips_next(c) {
        0
    } else {
        (c.counter + 1) as usize
    }
}

/// Ticking the first `k` clocks flips each of their gates that reaches
/// its half-period, advances their counters, and touches no other gate or
/// clock.
pub proof fn lemma_tick_clocks(m: SimModel, cs: Seq<CompiledClock>, k: nat)
    requires
        m.wf(),
        clocks_valid(m, cs),
        clocks_distinct(cs),
        k <= cs.len(),
    ensures
        ({
            let (m2, cs2) = tick_clocks(m, cs, k);
            &&& m2.wf()
            &&& m2.gates == m.gates
            &&& cs2.len() == cs.len()
            &&& clocks_valid(m2, cs2)
            &&& forall|j: int|
                0 <= j < cs.len() ==> (#[trigger] cs2[j]).gate_idx == cs[j].gate_idx && cs2[j].period
                    == cs[j].period
            &&& forall|j: int| 0 <= j < k ==> (#[trigger] cs2[j]).counter == next_clock_counter(cs[j])
            &&& forall|j: int| k <= j < cs.len() ==> #[trigger] cs2[j] == cs[j]
            &&& forall|j: int|
                0 <= j < k ==> #[trigger] m2.states[cs[j].gate_idx as int] == (if flips_next(cs[j]) {
                    !m.states[cs[j].gate_idx as int]
                } else {
                    m.states[cs[j].gate_idx as int]
                })
            &&& forall|g: int|
                0 <= g < m.len() && (forall|j: int| 0 <= j < k ==> (#[trigger] cs[j]).gate_idx != g)
                    ==> #[trigger] m2.states[g] == m.states[g]
        }),
    decreases k,
{
    if k > 0 {
        lemma_tick_clocks(m, cs, (k - 1) as nat);
        let (m1, cs1) = tick_clocks(m, cs, (k - 1) as nat);
        let c = cs1[k - 1];
        assert(c == cs[k - 1]);
        let g = c.gate_idx;
        assert(forall|j: int| 0 <= j < k - 1 ==> (#[trigger] cs[j]).gate_idx != g);
        assert(m1.states[g as int] == m.states[g as int]);
        lemma_set_input(m1, g, !m1.states[g as int]);
        let (m2, c2) = clock_tick(m1, c);
        let cs2 = cs1.update(k - 1, c2);
        assert(tick_clocks(m, cs, k) == (m2, cs2));
        assert forall|j: int| 0 <= j < cs.len() implies {
            &&& (#[trigger] cs2[j]).gate_idx < m2.len()
            &&& m2.gates[cs2[j].gate_idx as int].gate_type == GateType::Input
            &&& cs2[j].counter < usize::MAX
        } by {
            assert(cs1[j].gate_idx < m1.len());
        }
        assert forall|j: int| 0 <= j < k implies #[trigger] m2.states[cs[j].gate_idx as int] == (if flips_next(cs[j]) {
            !m.states[cs[j].gate_idx as int]
        } else {
            m.states[cs[j].gate_idx as int]
        }) by {
            if j < k - 1 {
                assert(cs[j].gate_idx != g);
                assert(m1.states[cs[j].gate_idx as int] == (if flips_next(cs[j]) {
                    !m.states[cs[j].gate_idx as int]
                } else {
                    m.states[cs[j].gate_idx as int]
                }));
            }
        }
        assert forall|g2: int|
            0 <= g2 < m.len() && (forall|j: int| 0 <= j < k ==> (#[trigger] cs[j]).gate_idx != g2)
            implies #[trigger] m2.states[g2] == m.states[g2] by {
            assert(cs[k - 1].gate_idx != g2);
            assert(forall|j: int| 0 <= j < k - 1 ==> (#[trigger] cs[j]).gate_idx != g2);
        }
    }
}

/// One tick keeps the network and the clocks well formed, and moves every
/// clock exactly one step: its counter advances and its gate flips when the
/// half-period is reached.
pub proof fn lemma_one_tick(s: TickState)
    requires
        s.sim.wf(),
        clocks_valid(s.sim, s.clocks),
        clocks_distinct(s.clocks),
    ensures
        one_tick(s).sim.wf(),
        one_tick(s).sim.gates == s.sim.gates,
        one_tick(s).clocks.len() == s.clocks.len(),
        clocks_valid(one_tick(s).sim, one_tick(s).clocks),
        clocks_distinct(one_tick(s).clocks),
        forall|j: int|
            0 <= j < s.clocks.len() ==> (#[trigger] one_tick(s).clocks[j]).gate_idx == s.clocks[j].gate_idx
                && one_tick(s).clocks[j].period == s.clocks[j].period
                && one_tick(s).clocks[j].counter == next_clock_counter(s.clocks[j]),
        forall|j: int|
            0 <= j < s.clocks.len() ==> #[trigger] one_tick(s).sim.states[s.clocks[j].gate_idx as int] == (
            if flips_next(s.clocks[j]) {
                !s.sim.states[s.clocks[j].gate_idx as int]
            } else {
                s.sim.states[s.clocks[j].gate_idx as int]
            }),
{
    lemma_tick_clocks(s.sim, s.clocks, s.clocks.len());
    let (m1, cs1) = tick_clocks(s.sim, s.clocks, s.clocks.len());
    let max = step_limit(m1);
    lemma_run(m1, max);
    lemma_run_keeps_inputs(m1, max);
    let r = one_tick(s);
    if !settles_within(m1, max) {
        assert(m1.run(max).queue.len() > 0) by {
            if m1.run(max).queue.len() == 0 {
                assert(settles_within(m1, max));
            }
        }
        lemma_pop(m1.run(max));
    }
    assert(r.sim.states =~= m1.run(max).states);
    assert forall|j: int| 0 <= j < s.clocks.len() implies #[trigger] r.sim.states[s.clocks[j].gate_idx as int]
        == m1.states[s.clocks[j].gate_idx as int] by {
        assert(cs1[j].gate_idx < m1.len());
    }
    assert forall|j: int| 0 <= j < s.clocks.len() implies {
        &&& (#[trigger] r.clocks[j]).gate_idx < r.sim.len()
        &&& r.sim.gates[r.clocks[j].gate_idx as int].gate_type == GateType::Input
        &&& r.clocks[j].counter < usize::MAX
    } by {
        assert(cs1[j].gate_idx < m1.len());
    }
    assert forall|i: int, j: int|
        0 <= i < r.clocks.len() && 0 <= j < r.clocks.len() && i != j
        implies #[trigger] r.clocks[i].gate_idx != #[trigger] r.clocks[j].gate_idx by {
        assert(cs1[i].gate_idx == s.clocks[i].gate_idx);
        assert(cs1[j].gate_idx == s.clocks[j].gate_idx);
    }
}

/// Ticks keep the network and the clocks well formed, and no clock changes
/// its gate or its period.
pub proof fn lemma_run_ticks_inv(s: TickState, n: nat)
    requires
        s.sim.wf(),
        clocks_valid(s.sim, s.clocks),
        clocks_distinct(s.clocks),
    ensures
        run_ticks(s, n).sim.wf(),
        run_ticks(s, n).sim.gates == s.sim.gates,
        run_ticks(s, n).clocks.len() == s.clocks.len(),
        clocks_valid(run_ticks(s, n).sim, run_ticks(s, n).clocks),
        clocks_distinct(run_ticks(s, n).clocks),
        forall|j: int|
            0 <= j < s.clocks.len() ==> (#[trigger] run_ticks(s, n).clocks[j]).gate_idx
                == s.clocks[j].gate_idx && run_ticks(s, n).clocks[j].period == s.clocks[j].period,
    decreases n,
{
    if n > 0 {
        lemma_run_ticks_inv(s, (n - 1) as nat);
        let p = run_ticks(s, (n - 1) as nat);
        if !p.halted {
            lemma_one_tick(p);
            assert forall|j: int| 0 <= j < s.clocks.len() implies (#[trigger] run_ticks(s, n).clocks[j]).gate_idx
                == s.clocks[j].gate_idx && run_ticks(s, n).clocks[j].period == s.clocks[j].period by {
                assert(p.clocks[j].gate_idx == s.clocks[j].gate_idx);
            }
        }
    }
}

/// The successor of `a` divided by `h`: either the remainder grows by one,
/// or it wraps to zero and the quotient grows by one.
proof fn lemma_succ_div_mod(a: int, h: int)
    requires
        a >= 0,
        h > 0,
    ensures
        0 <= a % h < h,
        a % h + 1 == h ==> (a + 1) % h == 0 && (a + 1) / h == a / h + 1,
        a % h + 1 != h ==> (a + 1) % h == a % h + 1 && (a + 1) / h == a / h,
{
    vstd::arithmetic::div_mod::lemma_fundamental_div_mod(a, h);
    vstd::arithmetic::div_mod::lemma_mod_pos_bound(a, h);
    assert((a / h + 1) * h == h * (a / h) + h) by (nonlinear_arith);
    assert((a / h) * h == h * (a / h)) by (nonlinear_arith);
    if a % h + 1 == h {
        vstd::arithmetic::div_mod::lemma_fundamental_div_mod_converse(a + 1, h, a / h + 1, 0);
    } else {
        vstd::arithmetic::div_mod::lemma_fundamental_div_mod_converse(a + 1, h, a / h, a % h + 1);
    }
}

/// Clocks keep their own periods. Over `n` ticks in which the network never
/// oscillates, a clock whose counter starts below its half-period `h` ends
/// with the counter `(counter + n) % h`, and its gate has flipped
/// `(counter + n) / h` times: whatever the periods of the other clocks, and
/// whatever the network computes from the clock signals.
pub proof fn law_clock_keeps_its_own_period(s: TickState, n: nat, k: int)
    requires
        s.sim.wf(),
        clocks_valid(s.sim, s.clocks),
        clocks_distinct(s.clocks),
        0 <= k < s.clocks.len(),
        s.clocks[k].counter < half_period(s.clocks[k].period),
        !run_ticks(s, n).halted,
    ensures
        run_ticks(s, n).clocks[k].counter == (s.clocks[k].counter + n) % (half_period(
            s.clocks[k].period,
        ) as int),
        run_ticks(s, n).sim.states[s.clocks[k].gate_idx as int] == (if ((s.clocks[k].counter + n) / (
        half_period(s.clocks[k].period) as int)) % 2 == 1 {
            !s.sim.states[s.clocks[k].gate_idx as int]
        } else {
            s.sim.states[s.clocks[k].gate_idx as int]
        }),
    decreases n,
{
    let c = s.clocks[k];
    let h = half_period(c.period) as int;
    let g = c.gate_idx as int;
    if n == 0 {
        vstd::arithmetic::div_mod::lemma_fundamental_div_mod_converse(c.counter as int, h, 0, c.counter as int);
    } else {
        let p = run_ticks(s, (n - 1) as nat);
        assert(!p.halted);
        law_clock_keeps_its_own_period(s, (n - 1) as nat, k);
        lemma_run_ticks_inv(s, (n - 1) as nat);
        lemma_one_tick(p);
        let a = c.counter + n - 1;
        lemma_succ_div_mod(a, h);
        assert(p.clocks[k].gate_idx == c.gate_idx);
        assert(one_tick(p).clocks[k].counter == next_clock_counter(p.clocks[k]));
        assert(one_tick(p).sim.states[g] == (if flips_next(p.clocks[k]) {
            !p.sim.states[g]
        } else {
            p.sim.states[g]
        }));
        assert(run_ticks(s, n) == one_tick(p));
    }
}

/// A halted run stays halted and unchanged.
pub proof fn lemma_halted_stays(s: TickState, k: nat, n: nat)
    requires
        k <= n,
        run_ticks(s, k).halted,
    ensures
        run_ticks(s, n) == run_ticks(s, k),
    decreases n,
{
    if n > k {
        lemma_halted_stays(s, k, (n - 1) as nat);
    }
}

} // verus!
