use vstd::prelude::*;
use vstd::slice::slice_to_vec;

use std::collections::HashMap;

use crate::canvas::{port_counts, VisualComponent, VisualConnection};
use crate::compiler::{
    clock_ports, compiles_from, connect_all, lemma_connect_all_push, empty_flat, instantiate, nand_ports, ComponentPorts,
    FlatState, InterfaceModel, PortsModel, WalkStep,
};
use crate::engine::{clocks_valid, lemma_clocks_valid_grow, settles_within, EngineState};
use crate::instance_map::{InstanceMap, PortMap};
use crate::simulator::{lemma_run, lemma_run_empty_stays, same_kinds, SimModel, Simulator};
use crate::types::{ChipBlueprint, CompiledClock, ComponentType, GateType, OutputSource};

verus! {

broadcast use vstd::std_specs::hash::group_hash_axioms;

// ---------------------------------------------------------------------------
// The model of compiling the canvas
// ---------------------------------------------------------------------------

/// What allocating the canvas components writes: the flattened state, the
/// gate of each primitive component by id, and the ports recorded for each
/// component in canvas order (none for a sub-chip that failed to compile).
pub struct CanvasAlloc {
    pub flat: FlatState,
    pub vmap: Map<usize, usize>,
    pub ports: Seq<Option<PortsModel>>,
}

/// The ports of a canvas input on gate `g`: one output, driven by it.
pub open spec fn input_ports(g: usize) -> PortsModel {
    PortsModel { ins: Seq::empty(), outs: seq![OutputSource::DrivenByGate(g)] }
}

/// The ports of a canvas output on gate `g`: one input, which feeds it.
pub open spec fn output_ports(g: usize) -> PortsModel {
    PortsModel { ins: seq![seq![(g, 0u8)]], outs: Seq::empty() }
}

/// The clock compiled for a canvas clock with id `id` on gate `g`: its
/// period defaults to 20 ticks.
pub open spec fn canvas_clock(g: usize, id: usize, period: Option<usize>) -> CompiledClock {
    CompiledClock {
        gate_idx: g,
        period: match period {
            Some(p) => p,
            None => 20,
        },
        counter: 0,
        visual_id: Some(id),
    }
}

/// The first `k` canvas components allocated in order from state `st`: a
/// gate for each NAND, input, output and clock, and a recursive
/// instantiation at path `[id]` for each sub-chip.
pub open spec fn canvas_alloc(lib: Seq<ChipBlueprint>, comps: Seq<VisualComponent>, st: FlatState, k: nat) -> CanvasAlloc
    decreases k,
{
    if k == 0 {
        CanvasAlloc { flat: st, vmap: Map::empty(), ports: Seq::empty() }
    } else {
        let a = canvas_alloc(lib, comps, st, (k - 1) as nat);
        let comp = comps[k - 1];
        let s = a.flat;
        let g = s.sim.len() as usize;
        match comp.comp_type {
            ComponentType::Nand => CanvasAlloc {
                flat: FlatState { sim: s.sim.add_gate(GateType::Nand), ..s },
                vmap: a.vmap.insert(comp.id, g),
                ports: a.ports.push(Some(nand_ports(g))),
            },
            ComponentType::Input => CanvasAlloc {
                flat: FlatState { sim: s.sim.add_gate(GateType::Input), ..s },
                vmap: a.vmap.insert(comp.id, g),
                ports: a.ports.push(Some(input_ports(g))),
            },
            ComponentType::Output => CanvasAlloc {
                flat: FlatState { sim: s.sim.add_gate(GateType::Output), ..s },
                vmap: a.vmap.insert(comp.id, g),
                ports: a.ports.push(Some(output_ports(g))),
            },
            ComponentType::Clock => CanvasAlloc {
                flat: FlatState {
                    sim: s.sim.add_gate(GateType::Input),
                    clocks: s.clocks.push(canvas_clock(g, comp.id, comp.clock_period)),
                    ..s
                },
                vmap: a.vmap.insert(comp.id, g),
                ports: a.ports.push(Some(clock_ports(g))),
            },
            ComponentType::SubChip(sub) => {
                let (s2, r) = instantiate(lib, sub, seq![comp.id], s);
                match r {
                    Ok(iface) => CanvasAlloc {
                        flat: FlatState { outs: s2.outs.insert((seq![comp.id], comp.id), iface.outputs), ..s2 },
                        vmap: a.vmap,
                        ports: a.ports.push(Some(PortsModel { ins: iface.inputs, outs: iface.outputs })),
                    },
                    Err(_) => CanvasAlloc { flat: s2, vmap: a.vmap, ports: a.ports.push(None) },
                }
            },
        }
    }
}

/// The ports of the component with id `id` among the first `k`: those of
/// the last of them with that id that has ports.
pub open spec fn ports_of(comps: Seq<VisualComponent>, ps: Seq<Option<PortsModel>>, id: usize, k: nat) -> Option<PortsModel>
    decreases k,
{
    if k == 0 {
        None
    } else if comps[k - 1].id == id && ps[k - 1] is Some {
        ps[k - 1]
    } else {
        ports_of(comps, ps, id, (k - 1) as nat)
    }
}

/// Every gate that the recorded ports name is a gate of a simulator with
/// `n` gates, and every primitive input port is 0 or 1.
pub open spec fn canvas_ports_valid(ps: Seq<Option<PortsModel>>, n: nat) -> bool {
    forall|j: int|
        0 <= j < ps.len() ==> match #[trigger] ps[j] {
            Some(p) => {
                &&& forall|q: int, t: int|
                    0 <= q < p.ins.len() && 0 <= t < p.ins[q].len() ==> (#[trigger] p.ins[q][t]).0 < n
                        && p.ins[q][t].1 <= 1
                &&& forall|o: int|
                    0 <= o < p.outs.len() ==> (#[trigger] p.outs[o] matches OutputSource::DrivenByGate(g) ==> g < n)
            },
            None => true,
        }
}

/// The ports recorded for one canvas component, as a model.
pub open spec fn opt_view(p: Option<ComponentPorts>) -> Option<PortsModel> {
    match p {
        Some(c) => Some(c@),
        None => None,
    }
}

pub open spec fn opt_ports_view(ps: Seq<Option<ComponentPorts>>) -> Seq<Option<PortsModel>> {
    ps.map_values(|p: Option<ComponentPorts>| opt_view(p))
}

// --- Tracing drivers across the canvas -------------------------------------

/// The source (component id, output port) of the first wire into input
/// `port` of the component with id `id`.
pub open spec fn wire_source(conns: Seq<VisualConnection>, id: usize, port: usize) -> Option<(usize, usize)>
    decreases conns.len(),
{
    if conns.len() == 0 {
        None
    } else if conns[0].tgt_comp_id == id && conns[0].tgt_port == port {
        Some((conns[0].src_comp_id, conns[0].src_port))
    } else {
        wire_source(conns.drop_first(), id, port)
    }
}

/// What output `port` of the component with id `id` gives: a driver (or
/// nothing), or a pass-through from one of its inputs.
pub enum OutStep {
    Done(OutputSource),
    Into(usize),
}

pub open spec fn out_step(comps: Seq<VisualComponent>, ps: Seq<Option<PortsModel>>, id: usize, port: usize) -> OutStep {
    match ports_of(comps, ps, id, ps.len()) {
        Some(p) => if port < p.outs.len() {
            match p.outs[port as int] {
                OutputSource::DrivenByGate(g) => OutStep::Done(OutputSource::DrivenByGate(g)),
                OutputSource::PassedThrough(i) => OutStep::Into(i),
                OutputSource::Floating => OutStep::Done(OutputSource::Floating),
            }
        } else {
            OutStep::Done(OutputSource::Floating)
        },
        None => OutStep::Done(OutputSource::Floating),
    }
}

/// One step back from input `port` of component `id`: the driver is found
/// (or there is none), or the signal passes through the component that
/// feeds the input and continues at input `i` of that component.
pub open spec fn canvas_step(
    comps: Seq<VisualComponent>,
    ps: Seq<Option<PortsModel>>,
    conns: Seq<VisualConnection>,
    id: usize,
    port: usize,
) -> WalkStep {
    match wire_source(conns, id, port) {
        None => WalkStep::Done(OutputSource::Floating),
        Some((src, sp)) => match out_step(comps, ps, src, sp) {
            OutStep::Done(r) => WalkStep::Done(r),
            OutStep::Into(i) => WalkStep::Next(src, i),
        },
    }
}

/// Follows the wires back from input `port` of component `id`, passing
/// through components at most `fuel` times; a longer walk is floating.
pub open spec fn trace_input(
    comps: Seq<VisualComponent>,
    ps: Seq<Option<PortsModel>>,
    conns: Seq<VisualConnection>,
    id: usize,
    port: usize,
    fuel: nat,
) -> OutputSource
    decreases fuel,
{
    match canvas_step(comps, ps, conns, id, port) {
        WalkStep::Done(r) => r,
        WalkStep::Next(c, i) => if fuel == 0 {
            OutputSource::Floating
        } else {
            trace_input(comps, ps, conns, c, i, (fuel - 1) as nat)
        },
    }
}

/// The driver of input `port` of component `id`. Each pass through
/// a component reads the first wire into one input, so a walk that passes
/// through more components than there are wires comes back to an input it
/// has read and goes round for ever: it is floating.
pub open spec fn input_driver(
    comps: Seq<VisualComponent>,
    ps: Seq<Option<PortsModel>>,
    conns: Seq<VisualConnection>,
    id: usize,
    port: usize,
) -> OutputSource {
    trace_input(comps, ps, conns, id, port, conns.len())
}

/// The driver of output `port` of component `id`.
pub open spec fn output_driver(
    comps: Seq<VisualComponent>,
    ps: Seq<Option<PortsModel>>,
    conns: Seq<VisualConnection>,
    id: usize,
    port: usize,
) -> OutputSource {
    match out_step(comps, ps, id, port) {
        OutStep::Done(r) => r,
        OutStep::Into(i) => input_driver(comps, ps, conns, id, i),
    }
}

// --- Wiring and the port map ---------------------------------------------------

/// The connections made for input `q` of the `j`-th canvas component: from
/// its driver gate to each primitive input that the port feeds.
pub open spec fn canvas_port_wires(
    comps: Seq<VisualComponent>,
    ps: Seq<Option<PortsModel>>,
    conns: Seq<VisualConnection>,
    j: nat,
    q: nat,
) -> Seq<(usize, usize, u8)> {
    let id = comps[j as int].id;
    match input_driver(comps, ps, conns, id, q as usize) {
        OutputSource::DrivenByGate(g) => match ports_of(comps, ps, id, ps.len()) {
            Some(p) => if q < p.ins.len() {
                p.ins[q as int].map_values(|x: (usize, u8)| (g, x.0, x.1))
            } else {
                Seq::empty()
            },
            None => Seq::empty(),
        },
        _ => Seq::empty(),
    }
}

pub open spec fn canvas_comp_wires(
    comps: Seq<VisualComponent>,
    ps: Seq<Option<PortsModel>>,
    conns: Seq<VisualConnection>,
    j: nat,
    q: nat,
) -> Seq<(usize, usize, u8)>
    decreases q,
{
    if q == 0 {
        Seq::empty()
    } else {
        canvas_comp_wires(comps, ps, conns, j, (q - 1) as nat) + canvas_port_wires(comps, ps, conns, j, (q - 1) as nat)
    }
}

/// The connections made for the first `k` canvas components, each input
/// port that the component's kind has in turn.
pub open spec fn canvas_wires(
    lib: Seq<ChipBlueprint>,
    comps: Seq<VisualComponent>,
    ps: Seq<Option<PortsModel>>,
    conns: Seq<VisualConnection>,
    k: nat,
) -> Seq<(usize, usize, u8)>
    decreases k,
{
    if k == 0 {
        Seq::empty()
    } else {
        canvas_wires(lib, comps, ps, conns, (k - 1) as nat) + canvas_comp_wires(
            comps,
            ps,
            conns,
            (k - 1) as nat,
            port_counts(lib, comps[k - 1].comp_type).0 as nat,
        )
    }
}

/// `m` with the driving gate of each of the first `q` outputs of the
/// `j`-th canvas component recorded under (its id, the port).
pub open spec fn canvas_comp_outs(
    comps: Seq<VisualComponent>,
    ps: Seq<Option<PortsModel>>,
    conns: Seq<VisualConnection>,
    j: nat,
    q: nat,
    m: Map<(usize, usize), usize>,
) -> Map<(usize, usize), usize>
    decreases q,
{
    if q == 0 {
        m
    } else {
        let before = canvas_comp_outs(comps, ps, conns, j, (q - 1) as nat, m);
        let id = comps[j as int].id;
        match output_driver(comps, ps, conns, id, (q - 1) as usize) {
            OutputSource::DrivenByGate(g) => before.insert((id, (q - 1) as usize), g),
            _ => before,
        }
    }
}

/// The gates that drive the output ports of the first `k` canvas
/// components; an output that no gate drives has no entry.
pub open spec fn canvas_port_map(
    lib: Seq<ChipBlueprint>,
    comps: Seq<VisualComponent>,
    ps: Seq<Option<PortsModel>>,
    conns: Seq<VisualConnection>,
    k: nat,
) -> Map<(usize, usize), usize>
    decreases k,
{
    if k == 0 {
        Map::empty()
    } else {
        canvas_comp_outs(
            comps,
            ps,
            conns,
            (k - 1) as nat,
            port_counts(lib, comps[k - 1].comp_type).1 as nat,
            canvas_port_map(lib, comps, ps, conns, (k - 1) as nat),
        )
    }
}

/// The network after settling: it propagates for up to 5000 events, and an
/// oscillation leaves it as the last of them left it.
pub open spec fn settled(m: SimModel) -> SimModel {
    if settles_within(m, 5000) {
        m.run(5000)
    } else {
        m.run(5000).pop()
    }
}

/// The allocation of all canvas components into an empty simulator.
pub open spec fn canvas_allocation(lib: Seq<ChipBlueprint>, comps: Seq<VisualComponent>) -> CanvasAlloc {
    canvas_alloc(lib, comps, empty_flat(SimModel::empty()), comps.len())
}

/// The compiled canvas before it settles: its gates, with every input port
/// of every component wired to its driver.
pub open spec fn canvas_network(
    lib: Seq<ChipBlueprint>,
    comps: Seq<VisualComponent>,
    conns: Seq<VisualConnection>,
) -> SimModel {
    let a = canvas_allocation(lib, comps);
    connect_all(a.flat.sim, canvas_wires(lib, comps, a.ports, conns, comps.len()))
}

/// The kind of gate that a primitive canvas component is given: a clock
/// runs on an input gate; a sub-chip has no gate of its own.
pub open spec fn primitive_kind(t: ComponentType) -> Option<GateType> {
    match t {
        ComponentType::Nand => Some(GateType::Nand),
        ComponentType::Input => Some(GateType::Input),
        ComponentType::Output => Some(GateType::Output),
        ComponentType::Clock => Some(GateType::Input),
        ComponentType::SubChip(_) => None,
    }
}

/// No component among those before position `k` and after `j` has the id
/// of component `j`.
pub open spec fn id_is_last(comps: Seq<VisualComponent>, j: int, k: int) -> bool {
    forall|i: int| j < i < k ==> #[trigger] comps[i].id != comps[j].id
}

/// Each primitive among the first `k` components whose id no later one of
/// them takes is mapped to a gate of `m` of its kind.
pub open spec fn kinds_recorded(comps: Seq<VisualComponent>, vmap: Map<usize, usize>, m: SimModel, k: int) -> bool {
    forall|j: int|
        0 <= j < k && #[trigger] primitive_kind(comps[j].comp_type) is Some && id_is_last(comps, j, k) ==> {
            &&& vmap.contains_key(comps[j].id)
            &&& vmap[comps[j].id] < m.len()
            &&& Some(m.gates[vmap[comps[j].id] as int].gate_type) == primitive_kind(comps[j].comp_type)
        }
}

// --- Lemmas ------------------------------------------------------------------

proof fn lemma_ports_of_valid(comps: Seq<VisualComponent>, ps: Seq<Option<PortsModel>>, id: usize, k: nat, n: nat)
    requires
        canvas_ports_valid(ps, n),
        k <= ps.len(),
    ensures
        ports_of(comps, ps, id, k) matches Some(p) ==> {
            &&& forall|q: int, t: int|
                0 <= q < p.ins.len() && 0 <= t < p.ins[q].len() ==> (#[trigger] p.ins[q][t]).0 < n
                    && p.ins[q][t].1 <= 1
            &&& forall|o: int|
                0 <= o < p.outs.len() ==> (#[trigger] p.outs[o] matches OutputSource::DrivenByGate(g) ==> g < n)
        },
    decreases k,
{
    if k > 0 {
        if !(comps[k - 1].id == id && ps[k - 1] is Some) {
            lemma_ports_of_valid(comps, ps, id, (k - 1) as nat, n);
        } else {
            assert(ps[k - 1] is Some);
        }
    }
}

proof fn lemma_out_step_valid(comps: Seq<VisualComponent>, ps: Seq<Option<PortsModel>>, id: usize, port: usize, n: nat)
    requires
        canvas_ports_valid(ps, n),
    ensures
        out_step(comps, ps, id, port) matches OutStep::Done(OutputSource::DrivenByGate(g)) ==> g < n,
{
    lemma_ports_of_valid(comps, ps, id, ps.len(), n);
    if let Some(p) = ports_of(comps, ps, id, ps.len()) {
        if port < p.outs.len() {
            assert(p.outs[port as int] matches OutputSource::DrivenByGate(g) ==> g < n);
        }
    }
}

proof fn lemma_trace_input_valid(
    comps: Seq<VisualComponent>,
    ps: Seq<Option<PortsModel>>,
    conns: Seq<VisualConnection>,
    id: usize,
    port: usize,
    fuel: nat,
    n: nat,
)
    requires
        canvas_ports_valid(ps, n),
    ensures
        trace_input(comps, ps, conns, id, port, fuel) matches OutputSource::DrivenByGate(g) ==> g < n,
    decreases fuel,
{
    if let Some((src, sp)) = wire_source(conns, id, port) {
        lemma_out_step_valid(comps, ps, src, sp, n);
        if let OutStep::Into(i) = out_step(comps, ps, src, sp) {
            if fuel > 0 {
                lemma_trace_input_valid(comps, ps, conns, src, i, (fuel - 1) as nat, n);
            }
        }
    }
}

proof fn lemma_output_driver_valid(
    comps: Seq<VisualComponent>,
    ps: Seq<Option<PortsModel>>,
    conns: Seq<VisualConnection>,
    id: usize,
    port: usize,
    n: nat,
)
    requires
        canvas_ports_valid(ps, n),
    ensures
        output_driver(comps, ps, conns, id, port) matches OutputSource::DrivenByGate(g) ==> g < n,
{
    lemma_out_step_valid(comps, ps, id, port, n);
    if let OutStep::Into(i) = out_step(comps, ps, id, port) {
        lemma_trace_input_valid(comps, ps, conns, id, i, conns.len(), n);
    }
}

proof fn lemma_ports_valid_grow(ps: Seq<Option<PortsModel>>, n: nat, m: nat)
    requires
        canvas_ports_valid(ps, n),
        n <= m,
    ensures
        canvas_ports_valid(ps, m),
{
    assert forall|j: int| 0 <= j < ps.len() implies match #[trigger] ps[j] {
        Some(p) => {
            &&& forall|q: int, t: int|
                0 <= q < p.ins.len() && 0 <= t < p.ins[q].len() ==> (#[trigger] p.ins[q][t]).0 < m
                    && p.ins[q][t].1 <= 1
            &&& forall|o: int|
                0 <= o < p.outs.len() ==> (#[trigger] p.outs[o] matches OutputSource::DrivenByGate(g) ==> g < m)
        },
        None => true,
    } by {
        if let Some(p) = ps[j] {
            assert forall|o: int| 0 <= o < p.outs.len() implies (#[trigger] p.outs[o] matches OutputSource::DrivenByGate(g) ==> g < m) by {
                assert(p.outs[o] matches OutputSource::DrivenByGate(g) ==> g < n);
            }
        }
    }
}

proof fn lemma_push_valid(ps: Seq<Option<PortsModel>>, p: Option<PortsModel>, n: nat)
    requires
        canvas_ports_valid(ps, n),
        canvas_ports_valid(seq![p], n),
    ensures
        canvas_ports_valid(ps.push(p), n),
{
    assert forall|j: int| 0 <= j < ps.push(p).len() implies match #[trigger] ps.push(p)[j] {
        Some(p) => {
            &&& forall|q: int, t: int|
                0 <= q < p.ins.len() && 0 <= t < p.ins[q].len() ==> (#[trigger] p.ins[q][t]).0 < n
                    && p.ins[q][t].1 <= 1
            &&& forall|o: int|
                0 <= o < p.outs.len() ==> (#[trigger] p.outs[o] matches OutputSource::DrivenByGate(g) ==> g < n)
        },
        None => true,
    } by {
        if j < ps.len() {
            assert(ps.push(p)[j] == ps[j]);
        } else {
            assert(ps.push(p)[j] == seq![p][0]);
        }
    }
}

// ---------------------------------------------------------------------------
// Allocation
// ---------------------------------------------------------------------------

/// The position of the component whose ports `ports_of` gives.
fn find_ports(comps: &[VisualComponent], ports: &Vec<Option<ComponentPorts>>, id: usize) -> (r: Option<usize>)
    requires
        ports@.len() <= comps@.len(),
    ensures
        match r {
            Some(j) => j < ports@.len() && opt_ports_view(ports@)[j as int] is Some
                && ports_of(comps@, opt_ports_view(ports@), id, ports@.len() as nat) == opt_ports_view(ports@)[j as int],
            None => ports_of(comps@, opt_ports_view(ports@), id, ports@.len() as nat) is None,
        },
{
    let ghost pv = opt_ports_view(ports@);
    let mut k: usize = ports.len();
    while k > 0
        invariant
            k <= ports@.len(),
            ports@.len() <= comps@.len(),
            pv == opt_ports_view(ports@),
            ports_of(comps@, pv, id, ports@.len() as nat) == ports_of(comps@, pv, id, k as nat),
        decreases k,
    {
        let j = k - 1;
        if comps[j].id == id {
            if ports[j].is_some() {
                return Some(j);
            }
        }
        k = j;
    }
    None
}

/// The first wire into input `port` of component `id`.
fn find_wire(conns: &[VisualConnection], id: usize, port: usize) -> (r: Option<(usize, usize)>)
    ensures
        r == wire_source(conns@, id, port),
{
    let n = conns.len();
    let mut i: usize = 0;
    proof {
        assert(conns@.subrange(0, n as int) =~= conns@);
    }
    while i < n
        invariant
            n == conns@.len(),
            i <= n,
            wire_source(conns@, id, port) == wire_source(conns@.subrange(i as int, n as int), id, port),
        decreases n - i,
    {
        proof {
            assert(conns@.subrange(i as int, n as int).drop_first() =~= conns@.subrange(i + 1, n as int));
        }
        if conns[i].tgt_comp_id == id && conns[i].tgt_port == port {
            return Some((conns[i].src_comp_id, conns[i].src_port));
        }
        i += 1;
    }
    None
}

/// What output `port` of component `id` gives.
fn step_out(comps: &[VisualComponent], ports: &Vec<Option<ComponentPorts>>, id: usize, port: usize) -> (r: OutStep)
    requires
        ports@.len() <= comps@.len(),
    ensures
        r == out_step(comps@, opt_ports_view(ports@), id, port),
{
    match find_ports(comps, ports, id) {
        Some(j) => {
            match &ports[j] {
                Some(p) => {
                    proof {
                        assert(opt_ports_view(ports@)[j as int] == Some(p@));
                    }
                    if port < p.outputs.len() {
                        match p.outputs[port] {
                            OutputSource::DrivenByGate(g) => OutStep::Done(OutputSource::DrivenByGate(g)),
                            OutputSource::PassedThrough(i) => OutStep::Into(i),
                            OutputSource::Floating => OutStep::Done(OutputSource::Floating),
                        }
                    } else {
                        OutStep::Done(OutputSource::Floating)
                    }
                },
                None => {
                    proof {
                        assert(opt_ports_view(ports@)[j as int] is None);
                    }
                    OutStep::Done(OutputSource::Floating)
                },
            }
        },
        None => OutStep::Done(OutputSource::Floating),
    }
}

/// The driver of input `port` of component `id`.
fn drive_input(
    comps: &[VisualComponent],
    ports: &Vec<Option<ComponentPorts>>,
    conns: &[VisualConnection],
    id: usize,
    port: usize,
) -> (r: OutputSource)
    requires
        ports@.len() <= comps@.len(),
    ensures
        r == input_driver(comps@, opt_ports_view(ports@), conns@, id, port),
{
    let ghost pv = opt_ports_view(ports@);
    let mut cur_id = id;
    let mut cur_port = port;
    let mut fuel = conns.len();
    loop
        invariant
            ports@.len() <= comps@.len(),
            pv == opt_ports_view(ports@),
            input_driver(comps@, pv, conns@, id, port) == trace_input(comps@, pv, conns@, cur_id, cur_port, fuel as nat),
        decreases fuel,
    {
        match find_wire(conns, cur_id, cur_port) {
            None => {
                return OutputSource::Floating;
            },
            Some((src, sp)) => {
                match step_out(comps, ports, src, sp) {
                    OutStep::Done(r) => {
                        return r;
                    },
                    OutStep::Into(i) => {
                        if fuel == 0 {
                            return OutputSource::Floating;
                        }
                        cur_id = src;
                        cur_port = i;
                        fuel -= 1;
                    },
                }
            },
        }
    }
}

/// The driver of output `port` of component `id`.
fn drive_output(
    comps: &[VisualComponent],
    ports: &Vec<Option<ComponentPorts>>,
    conns: &[VisualConnection],
    id: usize,
    port: usize,
) -> (r: OutputSource)
    requires
        ports@.len() <= comps@.len(),
    ensures
        r == output_driver(comps@, opt_ports_view(ports@), conns@, id, port),
{
    match step_out(comps, ports, id, port) {
        OutStep::Done(r) => r,
        OutStep::Into(i) => drive_input(comps, ports, conns, id, i),
    }
}

impl EngineState {
    /// Allocates the gates of the canvas components in order: one gate for
    /// each NAND, input, output and clock, and a recursive instantiation
    /// for each sub-chip; their ports are returned in canvas order.
    fn allocate_canvas(
        &self,
        components: &[VisualComponent],
        sim: &mut Simulator,
        visual_to_sim_map: &mut HashMap<usize, usize>,
        instance_map: &mut InstanceMap<usize>,
        instance_outputs: &mut InstanceMap<Vec<OutputSource>>,
        active_clocks: &mut Vec<CompiledClock>,
    ) -> (ports: Vec<Option<ComponentPorts>>)
        requires
            old(sim)@ == SimModel::empty(),
            old(visual_to_sim_map)@ == Map::<usize, usize>::empty(),
            old(instance_map).wf(),
            old(instance_map)@ == Map::<(Seq<usize>, usize), usize>::empty(),
            old(instance_outputs).wf(),
            old(instance_outputs)@ == Map::<(Seq<usize>, usize), Seq<OutputSource>>::empty(),
            old(active_clocks)@.len() == 0,
            forall|j: int|
                0 <= j < components@.len() ==> (#[trigger] components@[j].comp_type matches ComponentType::SubChip(s)
                    ==> (s < self.library@.len() ==> compiles_from(self.library@, s))),
        ensures
            ports@.len() == components@.len(),
            final(sim)@.wf(),
            final(instance_map).wf(),
            final(instance_outputs).wf(),
            canvas_ports_valid(opt_ports_view(ports@), final(sim)@.len()),
            forall|id: usize| #[trigger] final(visual_to_sim_map)@.contains_key(id) ==> final(visual_to_sim_map)@[id] < final(sim)@.len(),
            kinds_recorded(components@, final(visual_to_sim_map)@, final(sim)@, components@.len() as int),
            clocks_valid(final(sim)@, final(active_clocks)@),
            canvas_alloc(self.library@, components@, empty_flat(SimModel::empty()), components@.len()) == (CanvasAlloc {
                flat: FlatState { sim: final(sim)@, inst: final(instance_map)@, outs: final(instance_outputs)@, clocks: final(active_clocks)@ },
                vmap: final(visual_to_sim_map)@,
                ports: opt_ports_view(ports@),
            }),
    {
        let ghost lib = self.library@;
        let ghost st0 = empty_flat(SimModel::empty());
        let mut ports: Vec<Option<ComponentPorts>> = Vec::new();
        let n = components.len();
        let mut k: usize = 0;
        proof {
            assert(opt_ports_view(ports@) =~= Seq::<Option<PortsModel>>::empty());
            assert(active_clocks@ =~= Seq::<CompiledClock>::empty());
        }
        while k < n
            invariant
                lib == self.library@,
                n == components@.len(),
                k <= n,
                ports@.len() == k,
                sim@.wf(),
                instance_map.wf(),
                instance_outputs.wf(),
                canvas_ports_valid(opt_ports_view(ports@), sim@.len()),
                forall|id: usize| #[trigger] visual_to_sim_map@.contains_key(id) ==> visual_to_sim_map@[id] < sim@.len(),
                kinds_recorded(components@, visual_to_sim_map@, sim@, k as int),
                clocks_valid(sim@, active_clocks@),
                forall|j: int|
                    0 <= j < components@.len() ==> (#[trigger] components@[j].comp_type matches ComponentType::SubChip(s)
                        ==> (s < lib.len() ==> compiles_from(lib, s))),
                canvas_alloc(lib, components@, st0, k as nat) == (CanvasAlloc {
                    flat: FlatState { sim: sim@, inst: instance_map@, outs: instance_outputs@, clocks: active_clocks@ },
                    vmap: visual_to_sim_map@,
                    ports: opt_ports_view(ports@),
                }),
            decreases n - k,
        {
            let ghost pv = opt_ports_view(ports@);
            let ghost n0 = sim@.len();
            let ghost m0 = sim@;
            let ghost vm0 = visual_to_sim_map@;
            let comp = &components[k];
            let id = comp.id;
            let np: Option<ComponentPorts>;
            match comp.comp_type {
                ComponentType::Nand => {
                    let g = sim.add_gate(GateType::Nand);
                    visual_to_sim_map.insert(id, g);
                    let mut port_a: Vec<(usize, u8)> = Vec::new();
                    port_a.push((g, 0u8));
                    let mut port_b: Vec<(usize, u8)> = Vec::new();
                    port_b.push((g, 1u8));
                    let mut ins: Vec<Vec<(usize, u8)>> = Vec::new();
                    ins.push(port_a);
                    ins.push(port_b);
                    let mut outs: Vec<OutputSource> = Vec::new();
                    outs.push(OutputSource::DrivenByGate(g));
                    let cp = ComponentPorts { inputs: ins, outputs: outs };
                    proof {
                        assert(cp@.ins[0] =~= seq![(g, 0u8)]);
                        assert(cp@.ins[1] =~= seq![(g, 1u8)]);
                        assert(cp@.ins =~= nand_ports(g).ins);
                        assert(cp@.outs =~= nand_ports(g).outs);
                    }
                    np = Some(cp);
                },
                ComponentType::Input => {
                    let g = sim.add_gate(GateType::Input);
                    visual_to_sim_map.insert(id, g);
                    let mut outs: Vec<OutputSource> = Vec::new();
                    outs.push(OutputSource::DrivenByGate(g));
                    let cp = ComponentPorts { inputs: Vec::new(), outputs: outs };
                    proof {
                        assert(cp@.ins =~= input_ports(g).ins);
                        assert(cp@.outs =~= input_ports(g).outs);
                    }
                    np = Some(cp);
                },
                ComponentType::Output => {
                    let g = sim.add_gate(GateType::Output);
                    visual_to_sim_map.insert(id, g);
                    let mut port: Vec<(usize, u8)> = Vec::new();
                    port.push((g, 0u8));
                    let mut ins: Vec<Vec<(usize, u8)>> = Vec::new();
                    ins.push(port);
                    let cp = ComponentPorts { inputs: ins, outputs: Vec::new() };
                    proof {
                        assert(cp@.ins[0] =~= seq![(g, 0u8)]);
                        assert(cp@.ins =~= output_ports(g).ins);
                        assert(cp@.outs =~= output_ports(g).outs);
                    }
                    np = Some(cp);
                },
                ComponentType::Clock => {
                    let g = sim.add_gate(GateType::Input);
                    visual_to_sim_map.insert(id, g);
                    let period = match comp.clock_period {
                        Some(p) => p,
                        None => 20,
                    };
                    let ghost before_clocks = active_clocks@;
                    proof {
                        lemma_clocks_valid_grow(m0, sim@, before_clocks);
                    }
                    active_clocks.push(CompiledClock { gate_idx: g, period, counter: 0, visual_id: Some(id) });
                    proof {
                        assert forall|j: int| 0 <= j < active_clocks@.len() implies {
                            &&& (#[trigger] active_clocks@[j]).gate_idx < sim@.len()
                            &&& sim@.gates[active_clocks@[j].gate_idx as int].gate_type == GateType::Input
                            &&& active_clocks@[j].counter < usize::MAX
                        } by {
                            if j < before_clocks.len() {
                                assert(active_clocks@[j] == before_clocks[j]);
                            }
                        }
                    }
                    let mut outs: Vec<OutputSource> = Vec::new();
                    outs.push(OutputSource::DrivenByGate(g));
                    let cp = ComponentPorts { inputs: Vec::new(), outputs: outs };
                    proof {
                        assert(cp@.ins =~= clock_ports(g).ins);
                        assert(cp@.outs =~= clock_ports(g).outs);
                    }
                    np = Some(cp);
                },
                ComponentType::SubChip(sub_idx) => {
                    let mut path: Vec<usize> = Vec::new();
                    path.push(id);
                    proof {
                        assert(path@ =~= seq![id]);
                        assert(components@[k as int].comp_type == comp.comp_type);
                    }
                    let r = sim.instantiate_chip_with_mapping(
                        sub_idx,
                        self.library.as_slice(),
                        path.as_slice(),
                        instance_map,
                        instance_outputs,
                        active_clocks,
                    );
                    match r {
                        Ok(iface) => {
                            let mut key_path: Vec<usize> = Vec::new();
                            key_path.push(id);
                            proof {
                                assert(key_path@ =~= seq![id]);
                            }
                            instance_outputs.insert((key_path, id), slice_to_vec(iface.outputs.as_slice()));
                            let ghost im: InterfaceModel = iface@;
                            let cp = ComponentPorts { inputs: iface.inputs, outputs: iface.outputs };
                            proof {
                                assert(cp@ == PortsModel { ins: im.inputs, outs: im.outputs });
                            }
                            np = Some(cp);
                        },
                        Err(_) => {
                            np = None;
                        },
                    }
                },
            }
            proof {
                assert(same_kinds(m0, sim@));
                if comp.comp_type is Nand || comp.comp_type is Input || comp.comp_type is Output {
                    lemma_clocks_valid_grow(m0, sim@, active_clocks@);
                }
                assert(kinds_recorded(components@, visual_to_sim_map@, sim@, k + 1)) by {
                    assert forall|j: int|
                        0 <= j < k + 1 && #[trigger] primitive_kind(components@[j].comp_type) is Some && id_is_last(
                            components@,
                            j,
                            k + 1,
                        ) implies {
                        &&& visual_to_sim_map@.contains_key(components@[j].id)
                        &&& visual_to_sim_map@[components@[j].id] < sim@.len()
                        &&& Some(sim@.gates[visual_to_sim_map@[components@[j].id] as int].gate_type) == primitive_kind(
                            components@[j].comp_type,
                        )
                    } by {
                        if j < k {
                            assert(components@[k as int].id != components@[j].id);
                            assert(id_is_last(components@, j, k as int));
                            assert(vm0.contains_key(components@[j].id));
                            assert(visual_to_sim_map@[components@[j].id] == vm0[components@[j].id]);
                            assert(m0.gates[vm0[components@[j].id] as int].gate_type == sim@.gates[vm0[components@[j].id] as int].gate_type);
                        }
                    }
                }
                lemma_ports_valid_grow(pv, n0, sim@.len());
                let single = seq![opt_view(np)];
                assert(canvas_ports_valid(single, sim@.len())) by {
                    assert(single[0] == opt_view(np));
                }
                lemma_push_valid(pv, single[0], sim@.len());
            }
            ports.push(np);
            proof {
                assert(opt_ports_view(ports@) =~= pv.push(opt_view(np)));
            }
            k += 1;
        }
        ports
    }
    /// Connects each input port of each canvas component to its driver.
    fn wire_canvas(
        &self,
        components: &[VisualComponent],
        connections: &[VisualConnection],
        ports: &Vec<Option<ComponentPorts>>,
        sim: &mut Simulator,
    )
        requires
            old(sim)@.wf(),
            ports@.len() == components@.len(),
            canvas_ports_valid(opt_ports_view(ports@), old(sim)@.len()),
        ensures
            final(sim)@ == connect_all(
                old(sim)@,
                canvas_wires(self.library@, components@, opt_ports_view(ports@), connections@, components@.len()),
            ),
            final(sim)@.wf(),
            final(sim)@.len() == old(sim)@.len(),
            same_kinds(old(sim)@, final(sim)@),
    {
        let ghost m0 = sim@;
        let ghost pv = opt_ports_view(ports@);
        let ghost lib = self.library@;
        let ghost cs = connections@;
        let n = components.len();
        let mut c: usize = 0;
        while c < n
            invariant
                lib == self.library@,
                cs == connections@,
                pv == opt_ports_view(ports@),
                ports@.len() == components@.len(),
                canvas_ports_valid(pv, m0.len()),
                n == components@.len(),
                c <= n,
                sim@ == connect_all(m0, canvas_wires(lib, components@, pv, cs, c as nat)),
                sim@.wf(),
                sim@.len() == m0.len(),
                same_kinds(m0, sim@),
            decreases n - c,
        {
            let id = components[c].id;
            let (count, _) = self.get_component_ports_count(components[c].comp_type);
            let ghost before = canvas_wires(lib, components@, pv, cs, c as nat);
            proof {
                assert(before + canvas_comp_wires(components@, pv, cs, c as nat, 0) =~= before);
            }
            let mut q: usize = 0;
            while q < count
                invariant
                    lib == self.library@,
                    cs == connections@,
                    pv == opt_ports_view(ports@),
                    ports@.len() == components@.len(),
                    canvas_ports_valid(pv, m0.len()),
                    n == components@.len(),
                    c < n,
                    id == components@[c as int].id,
                    q <= count,
                    sim@ == connect_all(m0, before + canvas_comp_wires(components@, pv, cs, c as nat, q as nat)),
                    sim@.wf(),
                    sim@.len() == m0.len(),
                    same_kinds(m0, sim@),
                decreases count - q,
            {
                let d = drive_input(components, ports, connections, id, q);
                proof {
                    lemma_trace_input_valid(components@, pv, cs, id, q, cs.len(), m0.len());
                }
                let ghost pre = before + canvas_comp_wires(components@, pv, cs, c as nat, q as nat);
                let ghost pw = canvas_port_wires(components@, pv, cs, c as nat, q as nat);
                let mut done = false;
                if let OutputSource::DrivenByGate(src) = d {
                    if let Some(j) = find_ports(components, ports, id) {
                        if let Some(p) = &ports[j] {
                            proof {
                                assert(pv[j as int] == Some(p@));
                                lemma_ports_of_valid(components@, pv, id, pv.len(), m0.len());
                            }
                            if q < p.inputs.len() {
                                let targets = &p.inputs[q];
                                proof {
                                    assert(targets@ == p@.ins[q as int]);
                                    assert(pw == targets@.map_values(|x: (usize, u8)| (src, x.0, x.1)));
                                    assert(pre + pw.take(0) =~= pre);
                                }
                                let nt = targets.len();
                                let mut t: usize = 0;
                                while t < nt
                                    invariant
                                        nt == targets@.len(),
                                        q < p@.ins.len(),
                                        targets@ == p@.ins[q as int],
                                        forall|a: int, b: int|
                                            0 <= a < p@.ins.len() && 0 <= b < p@.ins[a].len() ==> (#[trigger] p@.ins[a][b]).0 < m0.len()
                                                && p@.ins[a][b].1 <= 1,
                                        src < m0.len(),
                                        pw == targets@.map_values(|x: (usize, u8)| (src, x.0, x.1)),
                                        t <= nt,
                                        sim@ == connect_all(m0, pre + pw.take(t as int)),
                                        sim@.wf(),
                                        sim@.len() == m0.len(),
                                        same_kinds(m0, sim@),
                                    decreases nt - t,
                                {
                                    let (tg, tp) = targets[t];
                                    proof {
                                        assert(p@.ins[q as int][t as int] == (tg, tp));
                                        assert((pre + pw.take(t + 1)) =~= (pre + pw.take(t as int)).push((src, tg, tp)));
                                        lemma_connect_all_push(m0, pre + pw.take(t as int), (src, tg, tp));
                                    }
                                    sim.connect(src, tg, tp);
                                    t += 1;
                                }
                                proof {
                                    assert(pw.take(nt as int) =~= pw);
                                }
                                done = true;
                            }
                        }
                    }
                }
                if !done {
                    proof {
                        assert(pw =~= Seq::<(usize, usize, u8)>::empty());
                        assert(pre + pw =~= pre);
                    }
                }
                proof {
                    assert(before + canvas_comp_wires(components@, pv, cs, c as nat, (q + 1) as nat) =~= pre + pw);
                }
                q += 1;
            }
            proof {
                assert(canvas_wires(lib, components@, pv, cs, (c + 1) as nat) == before + canvas_comp_wires(
                    components@,
                    pv,
                    cs,
                    c as nat,
                    count as nat,
                ));
            }
            c += 1;
        }
    }
    /// Records the driving gate of each output port of each canvas component.
    fn map_canvas_outputs(
        &self,
        components: &[VisualComponent],
        connections: &[VisualConnection],
        ports: &Vec<Option<ComponentPorts>>,
        Ghost(n_gates): Ghost<nat>,
    ) -> (m: PortMap)
        requires
            ports@.len() == components@.len(),
            canvas_ports_valid(opt_ports_view(ports@), n_gates),
        ensures
            m.wf(),
            forall|k: (usize, usize)| #[trigger] m@.contains_key(k) ==> m@[k] < n_gates,
            m@ == canvas_port_map(self.library@, components@, opt_ports_view(ports@), connections@, components@.len()),
    {
        let ghost pv = opt_ports_view(ports@);
        let ghost lib = self.library@;
        let ghost cs = connections@;
        let mut m = PortMap::new();
        let n = components.len();
        let mut c: usize = 0;
        while c < n
            invariant
                lib == self.library@,
                cs == connections@,
                pv == opt_ports_view(ports@),
                ports@.len() == components@.len(),
                n == components@.len(),
                c <= n,
                canvas_ports_valid(pv, n_gates),
                m.wf(),
                forall|k: (usize, usize)| #[trigger] m@.contains_key(k) ==> m@[k] < n_gates,
                m@ == canvas_port_map(lib, components@, pv, cs, c as nat),
            decreases n - c,
        {
            let id = components[c].id;
            let (_, count) = self.get_component_ports_count(components[c].comp_type);
            let ghost base = canvas_port_map(lib, components@, pv, cs, c as nat);
            let mut q: usize = 0;
            while q < count
                invariant
                    lib == self.library@,
                    cs == connections@,
                    pv == opt_ports_view(ports@),
                    ports@.len() == components@.len(),
                    n == components@.len(),
                    c < n,
                    id == components@[c as int].id,
                    q <= count,
                    canvas_ports_valid(pv, n_gates),
                    m.wf(),
                    forall|k: (usize, usize)| #[trigger] m@.contains_key(k) ==> m@[k] < n_gates,
                    m@ == canvas_comp_outs(components@, pv, cs, c as nat, q as nat, base),
                decreases count - q,
            {
                let d = drive_output(components, ports, connections, id, q);
                proof {
                    lemma_output_driver_valid(components@, pv, cs, id, q, n_gates);
                }
                if let OutputSource::DrivenByGate(g) = d {
                    m.insert((id, q), g);
                }
                q += 1;
            }
            c += 1;
        }
        m
    }

    /// Compiles the canvas into a fresh simulator: allocates a gate for each
    /// primitive component and instantiates each sub-chip under its id,
    /// wires every input port to its driver, records the driving gate of
    /// each output port, and lets the network settle. A sub-chip that
    /// fails to compile is left without ports.
    pub fn compile(&mut self, components: &[VisualComponent], connections: &[VisualConnection])
        requires
            forall|j: int|
                0 <= j < components@.len() ==> (#[trigger] components@[j].comp_type matches ComponentType::SubChip(s)
                    ==> (s < old(self).library@.len() ==> compiles_from(old(self).library@, s))),
        ensures
            final(self).library@ == old(self).library@,
            final(self).simulator@.wf(),
            final(self).simulator@ == settled(canvas_network(old(self).library@, components@, connections@)),
            final(self).visual_to_sim_map@ == canvas_allocation(old(self).library@, components@).vmap,
            forall|id: usize| #[trigger] final(self).visual_to_sim_map@.contains_key(id)
                ==> final(self).visual_to_sim_map@[id] < final(self).simulator@.len(),
            // Each NAND, input, output and clock on the canvas (the last with
            // its id) is mapped to a gate of its own kind.
            kinds_recorded(components@, final(self).visual_to_sim_map@, final(self).simulator@, components@.len() as int),
            // The compiled clocks drive input gates of the new simulator.
            clocks_valid(final(self).simulator@, final(self).active_clocks@),
            final(self).port_to_sim_gate_map.wf(),
            forall|k: (usize, usize)| #[trigger] final(self).port_to_sim_gate_map@.contains_key(k)
                ==> final(self).port_to_sim_gate_map@[k] < final(self).simulator@.len(),
            final(self).port_to_sim_gate_map@ == canvas_port_map(
                old(self).library@,
                components@,
                canvas_allocation(old(self).library@, components@).ports,
                connections@,
                components@.len(),
            ),
            final(self).instance_to_sim_map.wf(),
            final(self).instance_to_sim_map@ == canvas_allocation(old(self).library@, components@).flat.inst,
            final(self).instance_outputs.wf(),
            final(self).instance_outputs@ == canvas_allocation(old(self).library@, components@).flat.outs,
            final(self).active_clocks@ == canvas_allocation(old(self).library@, components@).flat.clocks,
            final(self).is_playing == old(self).is_playing,
            final(self).ticks_per_frame == old(self).ticks_per_frame,
            final(self).sim_tick_counter == old(self).sim_tick_counter,
            final(self).propagation_error == old(self).propagation_error,
    {
        let mut sim = Simulator::new();
        let mut visual_to_sim_map: HashMap<usize, usize> = HashMap::new();
        let mut instance_to_sim_map: InstanceMap<usize> = InstanceMap::new();
        let mut instance_outputs: InstanceMap<Vec<OutputSource>> = InstanceMap::new();
        let mut active_clocks: Vec<CompiledClock> = Vec::new();
        // 1. Allocate all visual components in the simulator.
        let ports = self.allocate_canvas(
            components,
            &mut sim,
            &mut visual_to_sim_map,
            &mut instance_to_sim_map,
            &mut instance_outputs,
            &mut active_clocks,
        );
        let ghost m1 = sim@;
        let ghost vm = visual_to_sim_map@;
        // 2. Wire up all component inputs on the canvas.
        self.wire_canvas(components, connections, &ports, &mut sim);
        // 3. Resolve the driving gate of each visual output port.
        let port_to_sim_gate_map = self.map_canvas_outputs(components, connections, &ports, Ghost(sim@.len()));
        // Settle the initial states.
        let ghost m2 = sim@;
        let r = sim.propagate_events(5000);
        proof {
            match r {
                Ok(k) => {
                    lemma_run(m2, k as nat);
                    lemma_run_empty_stays(m2, k as nat, 5000);
                    assert(settles_within(m2, 5000));
                },
                Err(_) => {
                    lemma_run(m2, 5000);
                    assert(m2.run(5000).pop().gates == m2.run(5000).gates);
                    assert(!settles_within(m2, 5000)) by {
                        if settles_within(m2, 5000) {
                            let k = choose|k: nat| k <= 5000 && #[trigger] m2.run(k).queue.len() == 0;
                            assert(m2.run(k).queue.len() > 0);
                        }
                    }
                },
            }
        }
        proof {
            let fin = sim@;
            assert(fin.gates == m2.gates);
            lemma_clocks_valid_grow(m1, fin, active_clocks@);
            assert forall|j: int|
                0 <= j < components@.len() && #[trigger] primitive_kind(components@[j].comp_type) is Some && id_is_last(
                    components@,
                    j,
                    components@.len() as int,
                ) implies {
                &&& vm.contains_key(components@[j].id)
                &&& vm[components@[j].id] < fin.len()
                &&& Some(fin.gates[vm[components@[j].id] as int].gate_type) == primitive_kind(components@[j].comp_type)
            } by {
                assert(m1.gates[vm[components@[j].id] as int].gate_type == m2.gates[vm[components@[j].id] as int].gate_type);
            }
        }
        self.simulator = sim;
        self.visual_to_sim_map = visual_to_sim_map;
        self.port_to_sim_gate_map = port_to_sim_gate_map;
        self.instance_to_sim_map = instance_to_sim_map;
        self.instance_outputs = instance_outputs;
        self.active_clocks = active_clocks;
    }
}

// ---------------------------------------------------------------------------
// The bound on tracing is exact
// ---------------------------------------------------------------------------

/// The `i`-th input (component id, port) of the walk back from input
/// `port` of component `id`; it stays put once the walk has found its driver.
pub open spec fn canvas_walk_node(
    comps: Seq<VisualComponent>,
    ps: Seq<Option<PortsModel>>,
    conns: Seq<VisualConnection>,
    id: usize,
    port: usize,
    i: nat,
) -> (usize, usize)
    decreases i,
{
    if i == 0 {
        (id, port)
    } else {
        let prev = canvas_walk_node(comps, ps, conns, id, port, (i - 1) as nat);
        match canvas_step(comps, ps, conns, prev.0, prev.1) {
            WalkStep::Next(c, j) => (c, j),
            WalkStep::Done(_) => prev,
        }
    }
}

/// The walk passes through a component at its `i`-th input.
pub open spec fn canvas_walk_goes_on(
    comps: Seq<VisualComponent>,
    ps: Seq<Option<PortsModel>>,
    conns: Seq<VisualConnection>,
    id: usize,
    port: usize,
    i: nat,
) -> bool {
    let n = canvas_walk_node(comps, ps, conns, id, port, i);
    canvas_step(comps, ps, conns, n.0, n.1) is Next
}

/// Where the walk continues after reading a wire, if it passes through the
/// wire's source component.
pub open spec fn wire_successor(comps: Seq<VisualComponent>, ps: Seq<Option<PortsModel>>, w: VisualConnection) -> Option<(usize, usize)> {
    match out_step(comps, ps, w.src_comp_id, w.src_port) {
        OutStep::Into(i) => Some((w.src_comp_id, i)),
        OutStep::Done(_) => None,
    }
}

proof fn lemma_wire_source_in(conns: Seq<VisualConnection>, id: usize, port: usize)
    ensures
        wire_source(conns, id, port) matches Some(src) ==> exists|k: int|
            0 <= k < conns.len() && conns[k].src_comp_id == src.0 && conns[k].src_port == src.1,
    decreases conns.len(),
{
    if conns.len() > 0 && !(conns[0].tgt_comp_id == id && conns[0].tgt_port == port) {
        lemma_wire_source_in(conns.drop_first(), id, port);
        if let Some(src) = wire_source(conns, id, port) {
            let k = choose|k: int|
                0 <= k < conns.drop_first().len() && conns.drop_first()[k].src_comp_id == src.0
                    && conns.drop_first()[k].src_port == src.1;
            assert(conns[k + 1] == conns.drop_first()[k]);
        }
    }
}

proof fn lemma_canvas_trace_advance(
    comps: Seq<VisualComponent>,
    ps: Seq<Option<PortsModel>>,
    conns: Seq<VisualConnection>,
    id: usize,
    port: usize,
    k: nat,
    f: nat,
)
    requires
        k <= f,
        forall|i: nat| i < k ==> #[trigger] canvas_walk_goes_on(comps, ps, conns, id, port, i),
    ensures
        ({
            let n = canvas_walk_node(comps, ps, conns, id, port, k);
            trace_input(comps, ps, conns, id, port, f) == trace_input(comps, ps, conns, n.0, n.1, (f - k) as nat)
        }),
    decreases k,
{
    if k > 0 {
        lemma_canvas_trace_advance(comps, ps, conns, id, port, (k - 1) as nat, f);
        assert(canvas_walk_goes_on(comps, ps, conns, id, port, (k - 1) as nat));
        assert(f - (k - 1) > 0);
    }
}

proof fn lemma_canvas_trace_cycle(
    comps: Seq<VisualComponent>,
    ps: Seq<Option<PortsModel>>,
    conns: Seq<VisualConnection>,
    id: usize,
    port: usize,
    a: nat,
    b: nat,
    i: nat,
    f: nat,
)
    requires
        a <= i < b,
        canvas_walk_node(comps, ps, conns, id, port, a) == canvas_walk_node(comps, ps, conns, id, port, b),
        forall|j: nat| a <= j < b ==> #[trigger] canvas_walk_goes_on(comps, ps, conns, id, port, j),
    ensures
        ({
            let n = canvas_walk_node(comps, ps, conns, id, port, i);
            trace_input(comps, ps, conns, n.0, n.1, f) == OutputSource::Floating
        }),
    decreases f,
{
    assert(canvas_walk_goes_on(comps, ps, conns, id, port, i));
    if f > 0 {
        let next = if i + 1 < b {
            (i + 1) as nat
        } else {
            a
        };
        assert(canvas_walk_node(comps, ps, conns, id, port, (i + 1) as nat) == canvas_walk_node(comps, ps, conns, id, port, next));
        lemma_canvas_trace_cycle(comps, ps, conns, id, port, a, b, next, (f - 1) as nat);
    }
}

proof fn lemma_canvas_walk_repeats(
    comps: Seq<VisualComponent>,
    ps: Seq<Option<PortsModel>>,
    conns: Seq<VisualConnection>,
    id: usize,
    port: usize,
)
    requires
        forall|i: nat| i <= conns.len() ==> #[trigger] canvas_walk_goes_on(comps, ps, conns, id, port, i),
    ensures
        exists|a: nat, b: nat|
            1 <= a < b <= conns.len() + 1 && canvas_walk_node(comps, ps, conns, id, port, a)
                == canvas_walk_node(comps, ps, conns, id, port, b),
{
    broadcast use vstd::seq_lib::seq_to_set_is_finite;
    let n = conns.len();
    let succs = Seq::new(n, |k: int| wire_successor(comps, ps, conns[k]));
    let visited = Seq::new(n + 1, |i: int| Some(canvas_walk_node(comps, ps, conns, id, port, (i + 1) as nat)));
    assert forall|x: Option<(usize, usize)>| visited.to_set().contains(x) implies succs.to_set().contains(x) by {
        let i = choose|i: int| 0 <= i < visited.len() && visited[i] == x;
        let prev = canvas_walk_node(comps, ps, conns, id, port, i as nat);
        assert(canvas_walk_goes_on(comps, ps, conns, id, port, i as nat));
        lemma_wire_source_in(conns, prev.0, prev.1);
        let src = wire_source(conns, prev.0, prev.1).unwrap();
        let k = choose|k: int| 0 <= k < conns.len() && conns[k].src_comp_id == src.0 && conns[k].src_port == src.1;
        assert(succs[k] == x);
    }
    succs.lemma_cardinality_of_set();
    if visited.no_duplicates() {
        visited.unique_seq_to_set();
        vstd::set_lib::lemma_len_subset(visited.to_set(), succs.to_set());
        assert(false);
    }
    let (p, q) = choose|p: int, q: int| 0 <= p < visited.len() && 0 <= q < visited.len() && p != q && visited[p] == visited[q];
    if p < q {
        assert(canvas_walk_node(comps, ps, conns, id, port, (p + 1) as nat) == canvas_walk_node(comps, ps, conns, id, port, (q + 1) as nat));
    } else {
        assert(canvas_walk_node(comps, ps, conns, id, port, (q + 1) as nat) == canvas_walk_node(comps, ps, conns, id, port, (p + 1) as nat));
    }
}

proof fn lemma_canvas_first_stop(
    comps: Seq<VisualComponent>,
    ps: Seq<Option<PortsModel>>,
    conns: Seq<VisualConnection>,
    id: usize,
    port: usize,
    s: nat,
) -> (r: nat)
    requires
        !canvas_walk_goes_on(comps, ps, conns, id, port, s),
    ensures
        r <= s,
        !canvas_walk_goes_on(comps, ps, conns, id, port, r),
        forall|j: nat| j < r ==> #[trigger] canvas_walk_goes_on(comps, ps, conns, id, port, j),
    decreases s,
{
    if exists|j: nat| j < s && !#[trigger] canvas_walk_goes_on(comps, ps, conns, id, port, j) {
        let j = choose|j: nat| j < s && !#[trigger] canvas_walk_goes_on(comps, ps, conns, id, port, j);
        lemma_canvas_first_stop(comps, ps, conns, id, port, j)
    } else {
        s
    }
}

/// Following a wire walk until it repeats an input gives the driver that
/// the bounded trace gives: with one pass per wire, the trace agrees with
/// the trace with any more fuel, so a walk that exhausts the bound is caught
/// in a loop of pass-through wires, which no amount of following resolves.
pub proof fn law_canvas_trace_bound_is_exact(
    comps: Seq<VisualComponent>,
    ps: Seq<Option<PortsModel>>,
    conns: Seq<VisualConnection>,
    id: usize,
    port: usize,
    f: nat,
)
    requires
        f >= conns.len(),
    ensures
        trace_input(comps, ps, conns, id, port, f) == input_driver(comps, ps, conns, id, port),
{
    let n = conns.len();
    if exists|s: nat| s <= n && !#[trigger] canvas_walk_goes_on(comps, ps, conns, id, port, s) {
        let s0 = choose|s: nat| s <= n && !#[trigger] canvas_walk_goes_on(comps, ps, conns, id, port, s);
        let s = lemma_canvas_first_stop(comps, ps, conns, id, port, s0);
        lemma_canvas_trace_advance(comps, ps, conns, id, port, s, f);
        lemma_canvas_trace_advance(comps, ps, conns, id, port, s, n);
    } else {
        assert forall|i: nat| i <= n implies #[trigger] canvas_walk_goes_on(comps, ps, conns, id, port, i) by {}
        lemma_canvas_walk_repeats(comps, ps, conns, id, port);
        let (a, b) = choose|a: nat, b: nat|
            1 <= a < b <= n + 1 && canvas_walk_node(comps, ps, conns, id, port, a)
                == canvas_walk_node(comps, ps, conns, id, port, b);
        assert forall|j: nat| a <= j < b implies #[trigger] canvas_walk_goes_on(comps, ps, conns, id, port, j) by {}
        lemma_canvas_trace_advance(comps, ps, conns, id, port, a, f);
        lemma_canvas_trace_cycle(comps, ps, conns, id, port, a, b, a, (f - a) as nat);
        lemma_canvas_trace_advance(comps, ps, conns, id, port, n, n);
        assert(canvas_walk_goes_on(comps, ps, conns, id, port, n));
    }
}


// ---------------------------------------------------------------------------
// Which output of a component a wire reads
// ---------------------------------------------------------------------------

/// A wire from output `p` of a canvas component is driven by what drives
/// that very output: when the component's recorded output `p` is driven by
/// gate `g`, so are the output itself and every input whose first wire
/// comes from it, whatever the component's other outputs are.
pub proof fn law_canvas_output_is_read_by_port(
    comps: Seq<VisualComponent>,
    ps: Seq<Option<PortsModel>>,
    conns: Seq<VisualConnection>,
    id: usize,
    p: usize,
    tid: usize,
    tport: usize,
)
    requires
        ports_of(comps, ps, id, ps.len()) is Some,
        p < ports_of(comps, ps, id, ps.len()).unwrap().outs.len(),
    ensures
        ports_of(comps, ps, id, ps.len()).unwrap().outs[p as int] matches OutputSource::DrivenByGate(g) ==> {
            &&& output_driver(comps, ps, conns, id, p) == OutputSource::DrivenByGate(g)
            &&& wire_source(conns, tid, tport) == Some((id, p)) ==> input_driver(comps, ps, conns, tid, tport)
                == OutputSource::DrivenByGate(g)
        },
        ports_of(comps, ps, id, ps.len()).unwrap().outs[p as int] == OutputSource::Floating ==> output_driver(
            comps,
            ps,
            conns,
            id,
            p,
        ) == OutputSource::Floating,
{
}

proof fn lemma_comp_outs_records(
    comps: Seq<VisualComponent>,
    ps: Seq<Option<PortsModel>>,
    conns: Seq<VisualConnection>,
    j: nat,
    q: nat,
    m: Map<(usize, usize), usize>,
    p: usize,
    g: usize,
)
    requires
        p < q <= usize::MAX,
        output_driver(comps, ps, conns, comps[j as int].id, p) == OutputSource::DrivenByGate(g),
    ensures
        canvas_comp_outs(comps, ps, conns, j, q, m).contains_key((comps[j as int].id, p)),
        canvas_comp_outs(comps, ps, conns, j, q, m)[(comps[j as int].id, p)] == g,
    decreases q,
{
    if q > p + 1 {
        lemma_comp_outs_records(comps, ps, conns, j, (q - 1) as nat, m, p, g);
        assert((comps[j as int].id, (q - 1) as usize) != (comps[j as int].id, p));
    }
}

proof fn lemma_comp_outs_keeps(
    comps: Seq<VisualComponent>,
    ps: Seq<Option<PortsModel>>,
    conns: Seq<VisualConnection>,
    j: nat,
    q: nat,
    m: Map<(usize, usize), usize>,
    key: (usize, usize),
)
    requires
        comps[j as int].id != key.0,
    ensures
        canvas_comp_outs(comps, ps, conns, j, q, m).contains_key(key) == m.contains_key(key),
        m.contains_key(key) ==> canvas_comp_outs(comps, ps, conns, j, q, m)[key] == m[key],
    decreases q,
{
    if q > 0 {
        lemma_comp_outs_keeps(comps, ps, conns, j, (q - 1) as nat, m, key);
    }
}

/// The port map records, under (id, `p`), the driver gate of output `p` of
/// the last canvas component with that id, when that output of the
/// component's recorded ports is driven by a gate.
pub proof fn law_canvas_port_map_reads_by_port(
    lib: Seq<ChipBlueprint>,
    comps: Seq<VisualComponent>,
    ps: Seq<Option<PortsModel>>,
    conns: Seq<VisualConnection>,
    j: int,
    p: usize,
    g: usize,
)
    requires
        0 <= j < comps.len(),
        id_is_last(comps, j, comps.len() as int),
        p < port_counts(lib, comps[j].comp_type).1,
        ports_of(comps, ps, comps[j].id, ps.len()) is Some,
        p < ports_of(comps, ps, comps[j].id, ps.len()).unwrap().outs.len(),
        ports_of(comps, ps, comps[j].id, ps.len()).unwrap().outs[p as int] == OutputSource::DrivenByGate(g),
    ensures
        canvas_port_map(lib, comps, ps, conns, comps.len()).contains_key((comps[j].id, p)),
        canvas_port_map(lib, comps, ps, conns, comps.len())[(comps[j].id, p)] == g,
{
    law_canvas_output_is_read_by_port(comps, ps, conns, comps[j].id, p, 0, 0);
    lemma_port_map_from(lib, comps, ps, conns, j, p, g, comps.len());
}

proof fn lemma_port_map_from(
    lib: Seq<ChipBlueprint>,
    comps: Seq<VisualComponent>,
    ps: Seq<Option<PortsModel>>,
    conns: Seq<VisualConnection>,
    j: int,
    p: usize,
    g: usize,
    k: nat,
)
    requires
        0 <= j < k <= comps.len(),
        id_is_last(comps, j, comps.len() as int),
        p < port_counts(lib, comps[j].comp_type).1,
        output_driver(comps, ps, conns, comps[j].id, p) == OutputSource::DrivenByGate(g),
    ensures
        canvas_port_map(lib, comps, ps, conns, k).contains_key((comps[j].id, p)),
        canvas_port_map(lib, comps, ps, conns, k)[(comps[j].id, p)] == g,
    decreases k,
{
    let prev = canvas_port_map(lib, comps, ps, conns, (k - 1) as nat);
    let count = port_counts(lib, comps[k - 1].comp_type).1 as nat;
    if k - 1 == j {
        lemma_comp_outs_records(comps, ps, conns, j as nat, count, prev, p, g);
    } else {
        lemma_port_map_from(lib, comps, ps, conns, j, p, g, (k - 1) as nat);
        assert(comps[k - 1].id != comps[j].id);
        lemma_comp_outs_keeps(comps, ps, conns, (k - 1) as nat, count, prev, (comps[j].id, p));
    }
}


/// The wire that feeds input `port` of component `id` is the first wire on
/// the canvas that goes into it; an input with no wire into it is fed by none.
pub proof fn law_first_wire_feeds(conns: Seq<VisualConnection>, id: usize, port: usize)
    ensures
        wire_source(conns, id, port) is None <==> forall|k: int|
            0 <= k < conns.len() ==> !((#[trigger] conns[k]).tgt_comp_id == id && conns[k].tgt_port == port),
        wire_source(conns, id, port) matches Some(src) ==> exists|k: int|
            0 <= k < conns.len() && conns[k].tgt_comp_id == id && conns[k].tgt_port == port && conns[k].src_comp_id
                == src.0 && conns[k].src_port == src.1 && forall|j: int|
                0 <= j < k ==> !((#[trigger] conns[j]).tgt_comp_id == id && conns[j].tgt_port == port),
    decreases conns.len(),
{
    if conns.len() > 0 {
        let rest = conns.drop_first();
        law_first_wire_feeds(rest, id, port);
        if conns[0].tgt_comp_id == id && conns[0].tgt_port == port {
        } else {
            if wire_source(conns, id, port) is None {
                assert forall|k: int| 0 <= k < conns.len() implies !((#[trigger] conns[k]).tgt_comp_id == id
                    && conns[k].tgt_port == port) by {
                    if k > 0 {
                        assert(rest[k - 1] == conns[k]);
                    }
                }
            } else {
                let src = wire_source(conns, id, port).unwrap();
                let k = choose|k: int|
                    0 <= k < rest.len() && rest[k].tgt_comp_id == id && rest[k].tgt_port == port && rest[k].src_comp_id
                        == src.0 && rest[k].src_port == src.1 && forall|j: int|
                        0 <= j < k ==> !((#[trigger] rest[j]).tgt_comp_id == id && rest[j].tgt_port == port);
                assert forall|j: int| 0 <= j < k + 1 implies !((#[trigger] conns[j]).tgt_comp_id == id
                    && conns[j].tgt_port == port) by {
                    if j > 0 {
                        assert(rest[j - 1] == conns[j]);
                    }
                }
                assert(conns[k + 1] == rest[k]);
            }
            if forall|k: int| 0 <= k < conns.len() ==> !((#[trigger] conns[k]).tgt_comp_id == id && conns[k].tgt_port == port) {
                assert forall|k: int| 0 <= k < rest.len() implies !((#[trigger] rest[k]).tgt_comp_id == id
                    && rest[k].tgt_port == port) by {
                    assert(rest[k] == conns[k + 1]);
                }
            }
        }
    }
}

} // verus!
