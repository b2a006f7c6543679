use vstd::prelude::*;
use vstd::set_lib::{lemma_int_range, lemma_len_subset, set_int_range};
use vstd::slice::slice_to_vec;

use crate::engine::{clocks_valid, lemma_clocks_valid_grow};
use crate::instance_map::InstanceMap;
use crate::simulator::{same_kinds, SimModel, Simulator};
use crate::text::{decimal, not_found_message};
use crate::types::{
    ChipBlueprint, CompiledClock, ComponentType, Connection, GateType, InstantiatedInterface,
    OutputSource, SourcePort, TargetPort,
};

verus! {

// ---------------------------------------------------------------------------
// The model of a compilation
// ---------------------------------------------------------------------------

/// The flattened ports of one component of a blueprint: for each of its
/// input ports the primitive inputs (gate, port) that it feeds, and for each
/// of its output ports what drives it.
pub struct PortsModel {
    pub ins: Seq<Seq<(usize, u8)>>,
    pub outs: Seq<OutputSource>,
}

/// The flattened interface of an instantiated chip.
pub struct InterfaceModel {
    pub inputs: Seq<Seq<(usize, u8)>>,
    pub outputs: Seq<OutputSource>,
}

impl View for InstantiatedInterface {
    type V = InterfaceModel;

    open spec fn view(&self) -> InterfaceModel {
        InterfaceModel {
            inputs: self.inputs@.map_values(|v: Vec<(usize, u8)>| v@),
            outputs: self.outputs@,
        }
    }
}

/// Why an instantiation fails.
pub enum InstError {
    /// A blueprint index names no blueprint of the library.
    NotFound(usize),
    /// A blueprint holds a top-level `Input` or `Output` component.
    PortInside,
}

/// The error text that an instantiation returns.
pub open spec fn error_text(e: InstError) -> Seq<char> {
    match e {
        InstError::NotFound(i) => "Blueprint not found at index "@ + decimal(i as nat),
        InstError::PortInside => "Blueprint components cannot contain top-level Input or Output internally"@,
    }
}

/// Everything that a compilation writes: the simulator, the map from
/// primitive components to their gates, the map from sub-chip instances to
/// their resolved outputs, and the compiled clocks.
pub struct FlatState {
    pub sim: SimModel,
    pub inst: Map<(Seq<usize>, usize), usize>,
    pub outs: Map<(Seq<usize>, usize), Seq<OutputSource>>,
    pub clocks: Seq<CompiledClock>,
}

pub open spec fn flat_state(
    sim: Simulator,
    inst: InstanceMap<usize>,
    outs: InstanceMap<Vec<OutputSource>>,
    clocks: Vec<CompiledClock>,
) -> FlatState {
    FlatState { sim: sim@, inst: inst@, outs: outs@, clocks: clocks@ }
}

/// `r` ranks the blueprints so that every sub-chip reference that names a
/// blueprint of the library goes to a blueprint of strictly lower rank.
pub open spec fn ranks_sub_chips(lib: Seq<ChipBlueprint>, r: Seq<nat>) -> bool {
    &&& r.len() == lib.len()
    &&& forall|b: int, c: int|
        0 <= b < lib.len() && 0 <= c < lib[b].components@.len() ==> match #[trigger] lib[b].components@[c].component_type {
            ComponentType::SubChip(s) => s < lib.len() ==> r[s as int] < r[b],
            _ => true,
        }
}

/// No blueprint contains itself, directly or through other blueprints.
pub open spec fn acyclic(lib: Seq<ChipBlueprint>) -> bool {
    exists|r: Seq<nat>| ranks_sub_chips(lib, r)
}

pub open spec fn lib_rank(lib: Seq<ChipBlueprint>) -> Seq<nat> {
    choose|r: Seq<nat>| ranks_sub_chips(lib, r)
}

/// Every connection that reads a component output names a component of its
/// blueprint, and an output that the component has when it is a sub-chip.
pub open spec fn sources_fit(lib: Seq<ChipBlueprint>, bp: ChipBlueprint) -> bool {
    forall|k: int|
        0 <= k < bp.connections@.len() ==> match #[trigger] bp.connections@[k].source {
            SourcePort::ComponentOutput { component_idx: c, port_idx: p } => {
                &&& c < bp.components@.len()
                &&& match bp.components@[c as int].component_type {
                    ComponentType::SubChip(s) => s < lib.len() ==> p < lib[s as int].outputs,
                    _ => true,
                }
            },
            _ => true,
        }
}

/// A library that can be compiled without an out-of-range access: it is
/// acyclic, and its connections name existing components and outputs.
pub open spec fn library_ok(lib: Seq<ChipBlueprint>) -> bool {
    &&& acyclic(lib)
    &&& forall|b: int| 0 <= b < lib.len() ==> sources_fit(lib, #[trigger] lib[b])
}

/// The number of input ports of a component type.
pub open spec fn in_count(lib: Seq<ChipBlueprint>, t: ComponentType) -> nat {
    match t {
        ComponentType::Nand => 2,
        ComponentType::Input => 0,
        ComponentType::Output => 1,
        ComponentType::Clock => 0,
        ComponentType::SubChip(s) => lib[s as int].inputs as nat,
    }
}

/// The ports recorded for a component have the shape of its type.
pub open spec fn ports_fit_type(lib: Seq<ChipBlueprint>, t: ComponentType, p: PortsModel) -> bool {
    match t {
        ComponentType::Nand => p.ins.len() == 2 && p.outs.len() == 1,
        ComponentType::Clock => p.ins.len() == 0 && p.outs.len() == 1,
        ComponentType::SubChip(s) => s < lib.len() && p.ins.len() == lib[s as int].inputs
            && p.outs.len() == lib[s as int].outputs,
        _ => false,
    }
}

/// The first `ports.len()` components of `bp` have ports of their shape.
pub open spec fn ports_fit(lib: Seq<ChipBlueprint>, bp: ChipBlueprint, ports: Seq<PortsModel>) -> bool {
    &&& ports.len() <= bp.components@.len()
    &&& forall|c: int|
        0 <= c < ports.len() ==> ports_fit_type(lib, bp.components@[c].component_type, #[trigger] ports[c])
}

/// Every gate that the ports name is a gate of a simulator with `n` gates,
/// and every primitive input port is 0 or 1.
pub open spec fn ports_valid(ports: Seq<PortsModel>, n: nat) -> bool {
    &&& forall|c: int, q: int, k: int|
        0 <= c < ports.len() && 0 <= q < ports[c].ins.len() && 0 <= k < ports[c].ins[q].len()
            ==> (#[trigger] ports[c].ins[q][k]).0 < n && ports[c].ins[q][k].1 <= 1
    &&& forall|c: int, o: int|
        0 <= c < ports.len() && 0 <= o < ports[c].outs.len() ==> (#[trigger] ports[c].outs[o] matches OutputSource::DrivenByGate(
            g,
        ) ==> g < n)
}

/// An interface of the shape of blueprint `bp` over a simulator with `n` gates.
pub open spec fn interface_valid(iface: InterfaceModel, bp: ChipBlueprint, n: nat) -> bool {
    &&& iface.inputs.len() == bp.inputs
    &&& iface.outputs.len() == bp.outputs
    &&& forall|i: int, k: int|
        0 <= i < iface.inputs.len() && 0 <= k < iface.inputs[i].len() ==> (
        #[trigger] iface.inputs[i][k]).0 < n && iface.inputs[i][k].1 <= 1
    &&& forall|o: int|
        0 <= o < iface.outputs.len() ==> (#[trigger] iface.outputs[o] matches OutputSource::DrivenByGate(
            g,
        ) ==> g < n)
}

// --- Tracing drivers through the wiring of one blueprint -------------------

/// The source of the first connection that targets `t`.
pub open spec fn source_feeding(conns: Seq<Connection>, t: TargetPort) -> Option<SourcePort>
    decreases conns.len(),
{
    if conns.len() == 0 {
        None
    } else if conns[0].target == t {
        Some(conns[0].source)
    } else {
        source_feeding(conns.drop_first(), t)
    }
}

/// One step of a trace: either the driver is found, or the signal passes
/// through a sub-chip and continues at input `i` of component `c`.
pub enum WalkStep {
    Done(OutputSource),
    Next(usize, usize),
}

pub open spec fn walk_step(bp: ChipBlueprint, ports: Seq<PortsModel>, t: TargetPort) -> WalkStep {
    match source_feeding(bp.connections@, t) {
        None => WalkStep::Done(OutputSource::Floating),
        Some(SourcePort::ChipInput(i)) => WalkStep::Done(OutputSource::PassedThrough(i)),
        Some(SourcePort::ComponentOutput { component_idx: c, port_idx: p }) => {
            match bp.components@[c as int].component_type {
                ComponentType::Nand | ComponentType::Clock => WalkStep::Done(
                    match ports[c as int].outs[0] {
                        OutputSource::DrivenByGate(g) => OutputSource::DrivenByGate(g),
                        _ => OutputSource::Floating,
                    },
                ),
                ComponentType::SubChip(_) => match ports[c as int].outs[p as int] {
                    OutputSource::PassedThrough(i) => WalkStep::Next(c, i),
                    other => WalkStep::Done(other),
                },
                ComponentType::Input | ComponentType::Output => WalkStep::Done(
                    OutputSource::Floating,
                ),
            }
        },
    }
}

/// Follows the wiring from target `t` back to its driver, passing through
/// sub-chips at most `fuel` times; a longer path goes round a loop of
/// pass-through wires and is floating.
pub open spec fn trace(bp: ChipBlueprint, ports: Seq<PortsModel>, t: TargetPort, fuel: nat) -> OutputSource
    decreases fuel,
{
    match walk_step(bp, ports, t) {
        WalkStep::Done(r) => r,
        WalkStep::Next(c, i) => if fuel == 0 {
            OutputSource::Floating
        } else {
            trace(bp, ports, TargetPort::ComponentInput { component_idx: c, port_idx: i }, (fuel - 1) as nat)
        },
    }
}

/// The driver of target `t`. A path of pass-throughs uses one connection per
/// step, so a path that takes more steps than there are connections repeats
/// a connection and loops for ever.
pub open spec fn driver(bp: ChipBlueprint, ports: Seq<PortsModel>, t: TargetPort) -> OutputSource {
    trace(bp, ports, t, bp.connections@.len())
}

pub open spec fn comp_input(c: nat, q: nat) -> TargetPort {
    TargetPort::ComponentInput { component_idx: c as usize, port_idx: q as usize }
}

// --- Wiring ------------------------------------------------------------------

/// The connections made for input `q` of component `c`: from its driver
/// gate to every primitive input that the port feeds.
pub open spec fn port_wires(bp: ChipBlueprint, ports: Seq<PortsModel>, c: nat, q: nat) -> Seq<(usize, usize, u8)> {
    match driver(bp, ports, comp_input(c, q)) {
        OutputSource::DrivenByGate(src) => ports[c as int].ins[q as int].map_values(
            |t: (usize, u8)| (src, t.0, t.1),
        ),
        _ => Seq::empty(),
    }
}

/// The connections made for the first `q` inputs of component `c`.
pub open spec fn comp_wires(bp: ChipBlueprint, ports: Seq<PortsModel>, c: nat, q: nat) -> Seq<(usize, usize, u8)>
    decreases q,
{
    if q == 0 {
        Seq::empty()
    } else {
        comp_wires(bp, ports, c, (q - 1) as nat) + port_wires(bp, ports, c, (q - 1) as nat)
    }
}

/// The connections made for the first `k` components of `bp`.
pub open spec fn all_wires(lib: Seq<ChipBlueprint>, bp: ChipBlueprint, ports: Seq<PortsModel>, k: nat) -> Seq<(usize, usize, u8)>
    decreases k,
{
    if k == 0 {
        Seq::empty()
    } else {
        all_wires(lib, bp, ports, (k - 1) as nat) + comp_wires(
            bp,
            ports,
            (k - 1) as nat,
            in_count(lib, bp.components@[k - 1].component_type),
        )
    }
}

/// The simulator after making the connections `ws` in order.
pub open spec fn connect_all(m: SimModel, ws: Seq<(usize, usize, u8)>) -> SimModel
    decreases ws.len(),
{
    if ws.len() == 0 {
        m
    } else {
        connect_all(m, ws.drop_last()).connect(ws.last().0, ws.last().1, ws.last().2)
    }
}

// --- The interface -------------------------------------------------------------

/// The primitive inputs that input `q` of component `c` contributes to chip input `i`.
pub open spec fn port_feeds(bp: ChipBlueprint, ports: Seq<PortsModel>, c: nat, q: nat, i: nat) -> Seq<(usize, u8)> {
    if driver(bp, ports, comp_input(c, q)) == OutputSource::PassedThrough(i as usize) {
        ports[c as int].ins[q as int]
    } else {
        Seq::empty()
    }
}

pub open spec fn comp_feeds(bp: ChipBlueprint, ports: Seq<PortsModel>, c: nat, q: nat, i: nat) -> Seq<(usize, u8)>
    decreases q,
{
    if q == 0 {
        Seq::empty()
    } else {
        comp_feeds(bp, ports, c, (q - 1) as nat, i) + port_feeds(bp, ports, c, (q - 1) as nat, i)
    }
}

/// The primitive inputs that chip input `i` feeds through the first `k` components.
pub open spec fn all_feeds(lib: Seq<ChipBlueprint>, bp: ChipBlueprint, ports: Seq<PortsModel>, k: nat, i: nat) -> Seq<(usize, u8)>
    decreases k,
{
    if k == 0 {
        Seq::empty()
    } else {
        all_feeds(lib, bp, ports, (k - 1) as nat, i) + comp_feeds(
            bp,
            ports,
            (k - 1) as nat,
            in_count(lib, bp.components@[k - 1].component_type),
            i,
        )
    }
}

/// The interface of an instantiated blueprint: each chip input feeds the
/// primitive inputs whose driver passes through from it, and each chip
/// output is driven by the driver of its target.
pub open spec fn interface_of(lib: Seq<ChipBlueprint>, bp: ChipBlueprint, ports: Seq<PortsModel>) -> InterfaceModel {
    InterfaceModel {
        inputs: Seq::new(
            bp.inputs as nat,
            |i: int| all_feeds(lib, bp, ports, bp.components@.len(), i as nat),
        ),
        outputs: Seq::new(
            bp.outputs as nat,
            |j: int| driver(bp, ports, TargetPort::ChipOutput(j as usize)),
        ),
    }
}

// --- Instantiation -------------------------------------------------------------

pub open spec fn nand_ports(g: usize) -> PortsModel {
    PortsModel { ins: seq![seq![(g, 0u8)], seq![(g, 1u8)]], outs: seq![OutputSource::DrivenByGate(g)] }
}

pub open spec fn clock_ports(g: usize) -> PortsModel {
    PortsModel { ins: Seq::empty(), outs: seq![OutputSource::DrivenByGate(g)] }
}

/// The clock compiled for a clock component on gate `g`.
pub open spec fn clock_of(g: usize, clock_period: Option<usize>) -> CompiledClock {
    CompiledClock {
        gate_idx: g,
        period: match clock_period {
            Some(p) => p,
            None => 20,
        },
        counter: 0,
        visual_id: None,
    }
}

/// The first `k` components of blueprint `idx` at `path`, instantiated in
/// order from state `st` while the blueprints of `stack` (`idx` last) are
/// being instantiated around them: the state after them, their ports, and
/// the error that stopped the instantiation, if one did. `None` where an
/// instantiation never returns (see `instantiate_in`).
pub open spec fn alloc_components(
    lib: Seq<ChipBlueprint>,
    stack: Seq<usize>,
    idx: usize,
    path: Seq<usize>,
    st: FlatState,
    k: nat,
) -> Option<(FlatState, Seq<PortsModel>, Option<InstError>)>
    decreases lib.len() - stack.len(), 1int, k,
{
    if k == 0 {
        Some((st, Seq::empty(), None))
    } else {
        match alloc_components(lib, stack, idx, path, st, (k - 1) as nat) {
            None => None,
            Some((s, ports, err)) => if err is Some {
                Some((s, ports, err))
            } else {
                let c = (k - 1) as usize;
                let comp = lib[idx as int].components@[c as int];
                let g = s.sim.len() as usize;
                match comp.component_type {
                    ComponentType::Nand => Some((
                        FlatState { sim: s.sim.add_gate(GateType::Nand), inst: s.inst.insert((path, c), g), ..s },
                        ports.push(nand_ports(g)),
                        None,
                    )),
                    ComponentType::Clock => Some((
                        FlatState {
                            sim: s.sim.add_gate(GateType::Input),
                            inst: s.inst.insert((path, c), g),
                            clocks: s.clocks.push(clock_of(g, comp.clock_period)),
                            ..s
                        },
                        ports.push(clock_ports(g)),
                        None,
                    )),
                    ComponentType::SubChip(sub) => match instantiate_in(lib, stack, sub, path.push(c), s) {
                        None => None,
                        Some((s2, Ok(iface))) => Some((
                            FlatState { outs: s2.outs.insert((path, c), iface.outputs), ..s2 },
                            ports.push(PortsModel { ins: iface.inputs, outs: iface.outputs }),
                            None,
                        )),
                        Some((s2, Err(e))) => Some((s2, ports, Some(e))),
                    },
                    ComponentType::Input | ComponentType::Output => Some((s, ports, Some(InstError::PortInside))),
                }
            },
        }
    }
}

/// Instantiating blueprint `idx` of `lib` at `path` from state `st`, inside
/// the instantiations of the blueprints of `stack`: its components are
/// instantiated in order (sub-chips recursively), and once all of them are,
/// every component input is wired to its driver and the chip's interface is
/// resolved. The state is the one the instantiation leaves, also when it
/// fails. `None` where the instantiation does not return: a blueprint that
/// is already being instantiated around itself is instantiated again and
/// again (a stack as long as the library repeats one), or the blueprint to
/// wire has a connection whose source names no component, or no output of
/// a sub-chip, which a trace would read out of range.
pub open spec fn instantiate_in(
    lib: Seq<ChipBlueprint>,
    stack: Seq<usize>,
    idx: usize,
    path: Seq<usize>,
    st: FlatState,
) -> Option<(FlatState, Result<InterfaceModel, InstError>)>
    decreases lib.len() - stack.len(), 0int, 0nat,
{
    if idx >= lib.len() {
        Some((st, Err(InstError::NotFound(idx))))
    } else if stack.contains(idx) || stack.len() >= lib.len() {
        None
    } else {
        let bp = lib[idx as int];
        match alloc_components(lib, stack.push(idx), idx, path, st, bp.components@.len()) {
            None => None,
            Some((st1, ports, Some(e))) => Some((st1, Err(e))),
            Some((st1, ports, None)) => if sources_fit(lib, bp) {
                Some((
                    FlatState { sim: connect_all(st1.sim, all_wires(lib, bp, ports, bp.components@.len())), ..st1 },
                    Ok(interface_of(lib, bp, ports)),
                ))
            } else {
                None
            },
        }
    }
}

/// Compiling blueprint `idx` returns: following its components in order, it
/// reaches no blueprint that contains itself, and every blueprint whose
/// components all instantiate has connections that name existing
/// components and outputs; what comes after the first error is not looked
/// at. (Whether it returns does not depend on the path or on the state it
/// starts from: see `lemma_returns_anywhere`.)
pub open spec fn compiles_from(lib: Seq<ChipBlueprint>, idx: usize) -> bool {
    instantiate_in(lib, Seq::empty(), idx, Seq::empty(), empty_flat(SimModel::empty())) is Some
}

/// Instantiating blueprint `idx` at `path` from state `st`, where it returns.
pub open spec fn instantiate(lib: Seq<ChipBlueprint>, idx: usize, path: Seq<usize>, st: FlatState) -> (FlatState, Result<InterfaceModel, InstError>) {
    instantiate_in(lib, Seq::empty(), idx, path, st).unwrap()
}

/// The number of primitive gates that the first `k` components of blueprint
/// `idx` stand for, inside `stack`: one per NAND and per clock, and the
/// gates of each sub-chip, however deeply nested.
pub open spec fn gate_count_prefix(lib: Seq<ChipBlueprint>, stack: Seq<usize>, idx: usize, k: nat) -> nat
    decreases lib.len() - stack.len(), 1int, k,
{
    if k == 0 {
        0
    } else {
        gate_count_prefix(lib, stack, idx, (k - 1) as nat) + match lib[idx as int].components@[k - 1].component_type {
            ComponentType::Nand | ComponentType::Clock => 1,
            ComponentType::SubChip(sub) => gate_count_in(lib, stack, sub),
            ComponentType::Input | ComponentType::Output => 0,
        }
    }
}

/// The number of primitive gates that blueprint `idx` flattens into, inside `stack`.
pub open spec fn gate_count_in(lib: Seq<ChipBlueprint>, stack: Seq<usize>, idx: usize) -> nat
    decreases lib.len() - stack.len(), 0int, 0nat,
{
    if idx >= lib.len() || stack.contains(idx) || stack.len() >= lib.len() {
        0
    } else {
        gate_count_prefix(lib, stack.push(idx), idx, lib[idx as int].components@.len())
    }
}

/// The number of primitive gates that blueprint `idx` flattens into.
pub open spec fn gate_count(lib: Seq<ChipBlueprint>, idx: usize) -> nat {
    gate_count_in(lib, Seq::empty(), idx)
}

// ---------------------------------------------------------------------------
// Lemmas
// ---------------------------------------------------------------------------

/// Once an instantiation has stopped on an error, later components change nothing.
pub proof fn lemma_alloc_error_stays(lib: Seq<ChipBlueprint>, stack: Seq<usize>, idx: usize, path: Seq<usize>, st: FlatState, k: nat, n: nat)
    requires
        k <= n,
        alloc_components(lib, stack, idx, path, st, k) matches Some(a) && a.2 is Some,
    ensures
        alloc_components(lib, stack, idx, path, st, n) == alloc_components(lib, stack, idx, path, st, k),
    decreases n,
{
    if n > k {
        lemma_alloc_error_stays(lib, stack, idx, path, st, k, (n - 1) as nat);
    }
}

/// An instantiation that returns got through each earlier prefix of its
/// components too.
pub proof fn lemma_alloc_prefix_returns(lib: Seq<ChipBlueprint>, stack: Seq<usize>, idx: usize, path: Seq<usize>, st: FlatState, k: nat, n: nat)
    requires
        k <= n,
        alloc_components(lib, stack, idx, path, st, n) is Some,
    ensures
        alloc_components(lib, stack, idx, path, st, k) is Some,
    decreases n,
{
    if n > k {
        assert(alloc_components(lib, stack, idx, path, st, (n - 1) as nat) is Some);
        lemma_alloc_prefix_returns(lib, stack, idx, path, st, k, (n - 1) as nat);
    }
}

/// Whether an instantiation returns, and whether it succeeds, depends on
/// the library alone: not on the path or on the state it starts from.
pub proof fn lemma_returns_anywhere(
    lib: Seq<ChipBlueprint>,
    stack: Seq<usize>,
    idx: usize,
    p1: Seq<usize>,
    s1: FlatState,
    p2: Seq<usize>,
    s2: FlatState,
)
    ensures
        (instantiate_in(lib, stack, idx, p1, s1) is Some) == (instantiate_in(lib, stack, idx, p2, s2) is Some),
        (instantiate_in(lib, stack, idx, p1, s1) matches Some(a) && a.1 is Ok) == (instantiate_in(
            lib,
            stack,
            idx,
            p2,
            s2,
        ) matches Some(b) && b.1 is Ok),
    decreases lib.len() - stack.len(), 0int, 0nat,
{
    if idx < lib.len() && !(stack.contains(idx) || stack.len() >= lib.len()) {
        let n = lib[idx as int].components@.len();
        lemma_alloc_returns_anywhere(lib, stack.push(idx), idx, p1, s1, p2, s2, n);
    }
}

proof fn lemma_alloc_returns_anywhere(
    lib: Seq<ChipBlueprint>,
    stack: Seq<usize>,
    idx: usize,
    p1: Seq<usize>,
    s1: FlatState,
    p2: Seq<usize>,
    s2: FlatState,
    k: nat,
)
    ensures
        (alloc_components(lib, stack, idx, p1, s1, k) is Some) == (alloc_components(lib, stack, idx, p2, s2, k) is Some),
        (alloc_components(lib, stack, idx, p1, s1, k) matches Some(a) && a.2 is None) == (alloc_components(
            lib,
            stack,
            idx,
            p2,
            s2,
            k,
        ) matches Some(b) && b.2 is None),
    decreases lib.len() - stack.len(), 1int, k,
{
    if k > 0 {
        lemma_alloc_returns_anywhere(lib, stack, idx, p1, s1, p2, s2, (k - 1) as nat);
        let c = (k - 1) as usize;
        match (alloc_components(lib, stack, idx, p1, s1, (k - 1) as nat), alloc_components(lib, stack, idx, p2, s2, (k - 1) as nat)) {
            (Some((a, _, None)), Some((b, _, None))) => {
                if let ComponentType::SubChip(sub) = lib[idx as int].components@[c as int].component_type {
                    lemma_returns_anywhere(lib, stack, sub, p1.push(c), a, p2.push(c), b);
                }
            },
            _ => {},
        }
    }
}

/// A sequence of distinct numbers below `n` has at most `n` of them.
proof fn lemma_distinct_below(s: Seq<usize>, n: nat)
    requires
        s.no_duplicates(),
        forall|j: int| 0 <= j < s.len() ==> #[trigger] s[j] < n,
    ensures
        s.len() <= n,
{
    let t = s.map_values(|x: usize| x as int);
    assert(t.no_duplicates()) by {
        assert forall|i: int, j: int| 0 <= i < t.len() && 0 <= j < t.len() && i != j implies t[i] != t[j] by {
            assert(s[i] != s[j]);
        }
    }
    t.unique_seq_to_set();
    let r = set_int_range(0, n as int);
    lemma_int_range(0, n as int);
    assert(t.to_set().subset_of(r)) by {
        assert forall|x: int| t.to_set().contains(x) implies r.contains(x) by {
            let j = choose|j: int| 0 <= j < t.len() && t[j] == x;
            assert(s[j] < n);
        }
    }
    lemma_len_subset(t.to_set(), r);
}

/// Under a ranking of the whole library, with every connection fitting, an
/// instantiation inside blueprints of higher rank returns.
proof fn lemma_ranked_returns(lib: Seq<ChipBlueprint>, r: Seq<nat>, stack: Seq<usize>, idx: usize, path: Seq<usize>, st: FlatState)
    requires
        ranks_sub_chips(lib, r),
        forall|b: int| 0 <= b < lib.len() ==> sources_fit(lib, #[trigger] lib[b]),
        stack.no_duplicates(),
        idx < lib.len() ==> forall|j: int| 0 <= j < stack.len() ==> #[trigger] stack[j] < lib.len() && r[stack[j] as int] > r[idx as int],
    ensures
        instantiate_in(lib, stack, idx, path, st) is Some,
    decreases lib.len() - stack.len(), 0int, 0nat,
{
    if idx < lib.len() {
        assert(!stack.contains(idx));
        let s2 = stack.push(idx);
        assert(s2.no_duplicates()) by {
            assert forall|i: int, j: int| 0 <= i < s2.len() && 0 <= j < s2.len() && i != j implies s2[i] != s2[j] by {
                if i < stack.len() && j < stack.len() {
                    assert(stack[i] != stack[j]);
                } else if i < stack.len() {
                    assert(s2[i] == stack[i]);
                } else if j < stack.len() {
                    assert(s2[j] == stack[j]);
                }
            }
        }
        assert forall|j: int| 0 <= j < s2.len() implies #[trigger] s2[j] < lib.len() by {
            if j < stack.len() {
                assert(s2[j] == stack[j]);
            }
        }
        lemma_distinct_below(s2, lib.len());
        let n = lib[idx as int].components@.len();
        lemma_ranked_alloc_returns(lib, r, s2, idx, path, st, n);
    }
}

proof fn lemma_ranked_alloc_returns(
    lib: Seq<ChipBlueprint>,
    r: Seq<nat>,
    stack: Seq<usize>,
    idx: usize,
    path: Seq<usize>,
    st: FlatState,
    k: nat,
)
    requires
        ranks_sub_chips(lib, r),
        forall|b: int| 0 <= b < lib.len() ==> sources_fit(lib, #[trigger] lib[b]),
        stack.no_duplicates(),
        idx < lib.len(),
        k <= lib[idx as int].components@.len(),
        forall|j: int| 0 <= j < stack.len() ==> #[trigger] stack[j] < lib.len() && r[stack[j] as int] >= r[idx as int],
    ensures
        alloc_components(lib, stack, idx, path, st, k) is Some,
    decreases lib.len() - stack.len(), 1int, k,
{
    if k > 0 {
        lemma_ranked_alloc_returns(lib, r, stack, idx, path, st, (k - 1) as nat);
        let c = (k - 1) as usize;
        if let Some((s, _, None)) = alloc_components(lib, stack, idx, path, st, (k - 1) as nat) {
            if let ComponentType::SubChip(sub) = lib[idx as int].components@[c as int].component_type {
                if sub < lib.len() {
                    assert(r[sub as int] < r[idx as int]);
                }
                lemma_ranked_returns(lib, r, stack, sub, path.push(c), s);
            }
        }
    }
}

/// A library that passes the whole-library check compiles from each of its
/// blueprints.
pub proof fn lemma_library_ok_compiles_from(lib: Seq<ChipBlueprint>, idx: usize)
    requires
        library_ok(lib),
    ensures
        compiles_from(lib, idx),
{
    let r = lib_rank(lib);
    assert(ranks_sub_chips(lib, r));
    lemma_ranked_returns(lib, r, Seq::empty(), idx, Seq::empty(), empty_flat(SimModel::empty()));
}

/// A traced driver that is a gate is one of the gates that the ports name.
pub proof fn lemma_trace_valid(lib: Seq<ChipBlueprint>, bp: ChipBlueprint, ports: Seq<PortsModel>, t: TargetPort, fuel: nat, n: nat)
    requires
        sources_fit(lib, bp),
        ports_fit(lib, bp, ports),
        ports.len() == bp.components@.len(),
        ports_valid(ports, n),
    ensures
        trace(bp, ports, t, fuel) matches OutputSource::DrivenByGate(g) ==> g < n,
    decreases fuel,
{
    match source_feeding(bp.connections@, t) {
        Some(SourcePort::ComponentOutput { component_idx: c, port_idx: p }) => {
            lemma_source_feeding_in(bp.connections@, t);
            let k = choose|k: int| 0 <= k < bp.connections@.len() && bp.connections@[k].source == SourcePort::ComponentOutput { component_idx: c, port_idx: p };
            assert(sources_fit(lib, bp));
            let src = bp.connections@[k].source;
            assert(c < bp.components@.len());
            assert(ports_fit_type(lib, bp.components@[c as int].component_type, ports[c as int]));
            match bp.components@[c as int].component_type {
                ComponentType::Nand | ComponentType::Clock => {
                    assert(ports[c as int].outs[0] matches OutputSource::DrivenByGate(g) ==> g < n);
                },
                ComponentType::SubChip(_) => {
                    assert(ports[c as int].outs[p as int] matches OutputSource::DrivenByGate(g) ==> g < n);
                    if fuel > 0 {
                        lemma_trace_valid(lib, bp, ports, comp_input(c as nat, 0), (fuel - 1) as nat, n);
                        if let OutputSource::PassedThrough(i) = ports[c as int].outs[p as int] {
                            lemma_trace_valid(lib, bp, ports, TargetPort::ComponentInput { component_idx: c, port_idx: i }, (fuel - 1) as nat, n);
                        }
                    }
                },
                _ => {},
            }
        },
        _ => {},
    }
}

/// The source that feeds a target is the source of one of the connections.
pub proof fn lemma_source_feeding_in(conns: Seq<Connection>, t: TargetPort)
    ensures
        source_feeding(conns, t) matches Some(src) ==> exists|k: int| 0 <= k < conns.len() && conns[k].source == src,
    decreases conns.len(),
{
    if conns.len() > 0 && conns[0].target != t {
        lemma_source_feeding_in(conns.drop_first(), t);
        if let Some(src) = source_feeding(conns, t) {
            let k = choose|k: int| 0 <= k < conns.drop_first().len() && conns.drop_first()[k].source == src;
            assert(conns[k + 1].source == src);
        }
    }
}

/// Making one more connection after a sequence of them.
pub proof fn lemma_connect_all_push(m: SimModel, ws: Seq<(usize, usize, u8)>, w: (usize, usize, u8))
    ensures
        connect_all(m, ws.push(w)) == connect_all(m, ws).connect(w.0, w.1, w.2),
{
    assert(ws.push(w).drop_last() =~= ws);
}

/// Connections keep the model well formed and its gate count.
pub proof fn lemma_connect_all_len(m: SimModel, ws: Seq<(usize, usize, u8)>)
    requires
        forall|k: int| 0 <= k < ws.len() ==> (#[trigger] ws[k]).1 < m.len(),
    ensures
        connect_all(m, ws).len() == m.len(),
    decreases ws.len(),
{
    if ws.len() > 0 {
        lemma_connect_all_len(m, ws.drop_last());
        assert(ws.last() == ws[ws.len() - 1]);
    }
}

// ---------------------------------------------------------------------------
// Executable compilation
// ---------------------------------------------------------------------------

/// The ports of one instantiated component.
pub struct ComponentPorts {
    pub inputs: Vec<Vec<(usize, u8)>>,
    pub outputs: Vec<OutputSource>,
}

impl View for ComponentPorts {
    type V = PortsModel;

    open spec fn view(&self) -> PortsModel {
        PortsModel { ins: self.inputs@.map_values(|v: Vec<(usize, u8)>| v@), outs: self.outputs@ }
    }
}

pub open spec fn ports_view(ps: Seq<ComponentPorts>) -> Seq<PortsModel> {
    ps.map_values(|p: ComponentPorts| p@)
}

/// The source of the first connection in `conns` that targets `target`.
pub(crate) fn find_source(conns: &Vec<Connection>, target: TargetPort) -> (r: Option<SourcePort>)
    ensures
        r == source_feeding(conns@, target),
{
    let n = conns.len();
    let mut i: usize = 0;
    proof {
        assert(conns@.subrange(0, n as int) =~= conns@);
    }
    while i < n
        invariant
            n == conns@.len(),
            i <= n,
            source_feeding(conns@, target) == source_feeding(conns@.subrange(i as int, n as int), target),
        decreases n - i,
    {
        proof {
            assert(conns@.subrange(i as int, n as int)[0] == conns@[i as int]);
            assert(conns@.subrange(i as int, n as int).drop_first() =~= conns@.subrange(i + 1, n as int));
        }
        if conns[i].target == target {
            return Some(conns[i].source);
        }
        i += 1;
    }
    None
}

/// The driver of `start` in blueprint `bp` whose components have `ports`.
fn trace_driver(library: &[ChipBlueprint], bp: &ChipBlueprint, ports: &Vec<ComponentPorts>, start: TargetPort) -> (r: OutputSource)
    requires
        sources_fit(library@, *bp),
        ports_fit(library@, *bp, ports_view(ports@)),
        ports@.len() == bp.components@.len(),
    ensures
        r == driver(*bp, ports_view(ports@), start),
{
    let ghost pv = ports_view(ports@);
    let mut target = start;
    let mut fuel = bp.connections.len();
    loop
        invariant
            sources_fit(library@, *bp),
            ports_fit(library@, *bp, pv),
            pv == ports_view(ports@),
            ports@.len() == bp.components@.len(),
            driver(*bp, pv, start) == trace(*bp, pv, target, fuel as nat),
        decreases fuel,
    {
        match find_source(&bp.connections, target) {
            None => {
                return OutputSource::Floating;
            },
            Some(SourcePort::ChipInput(i)) => {
                return OutputSource::PassedThrough(i);
            },
            Some(SourcePort::ComponentOutput { component_idx: c, port_idx: p }) => {
                proof {
                    lemma_source_feeding_in(bp.connections@, target);
                    let k = choose|k: int| 0 <= k < bp.connections@.len() && bp.connections@[k].source == SourcePort::ComponentOutput { component_idx: c, port_idx: p };
                    assert(sources_fit(library@, *bp));
                    let src = bp.connections@[k].source;
                    assert(c < bp.components@.len());
                    assert(ports_fit_type(library@, bp.components@[c as int].component_type, pv[c as int]));
                    assert(pv[c as int] == ports@[c as int]@);
                }
                match bp.components[c].component_type {
                    ComponentType::Nand | ComponentType::Clock => {
                        return match ports[c].outputs[0] {
                            OutputSource::DrivenByGate(g) => OutputSource::DrivenByGate(g),
                            _ => OutputSource::Floating,
                        };
                    },
                    ComponentType::SubChip(_) => {
                        match ports[c].outputs[p] {
                            OutputSource::PassedThrough(i) => {
                                if fuel == 0 {
                                    return OutputSource::Floating;
                                }
                                target = TargetPort::ComponentInput { component_idx: c, port_idx: i };
                                fuel -= 1;
                            },
                            other => {
                                return other;
                            },
                        }
                    },
                    ComponentType::Input | ComponentType::Output => {
                        return OutputSource::Floating;
                    },
                }
            },
        }
    }
}

/// The number of input ports of a component of `library`.
fn input_count(library: &[ChipBlueprint], t: ComponentType) -> (n: usize)
    requires
        t matches ComponentType::SubChip(s) ==> s < library@.len(),
    ensures
        n == in_count(library@, t),
{
    match t {
        ComponentType::Nand => 2,
        ComponentType::Input => 0,
        ComponentType::Output => 1,
        ComponentType::Clock => 0,
        ComponentType::SubChip(s) => library[s].inputs,
    }
}

impl Simulator {
    /// Wires every component input of `bp` to its driving gate.
    fn wire_component_inputs(&mut self, library: &[ChipBlueprint], bp: &ChipBlueprint, ports: &Vec<ComponentPorts>)
        requires
            old(self)@.wf(),
            sources_fit(library@, *bp),
            ports_fit(library@, *bp, ports_view(ports@)),
            ports@.len() == bp.components@.len(),
            ports_valid(ports_view(ports@), old(self)@.len()),
        ensures
            final(self)@ == connect_all(old(self)@, all_wires(library@, *bp, ports_view(ports@), bp.components@.len())),
            final(self)@.wf(),
            final(self)@.len() == old(self)@.len(),
            same_kinds(old(self)@, final(self)@),
    {
        let ghost m0 = self@;
        let ghost pv = ports_view(ports@);
        let ghost lib = library@;
        let n = bp.components.len();
        let mut c: usize = 0;
        while c < n
            invariant
                lib == library@,
                sources_fit(lib, *bp),
                ports_fit(lib, *bp, pv),
                pv == ports_view(ports@),
                ports@.len() == bp.components@.len(),
                ports_valid(pv, m0.len()),
                n == bp.components@.len(),
                c <= n,
                self@ == connect_all(m0, all_wires(lib, *bp, pv, c as nat)),
                self@.wf(),
                self@.len() == m0.len(),
                same_kinds(m0, self@),
            decreases n - c,
        {
            let ct = bp.components[c].component_type;
            proof {
                assert(ports_fit_type(lib, bp.components@[c as int].component_type, pv[c as int]));
            }
            let count = input_count(library, ct);
            let ghost before = all_wires(lib, *bp, pv, c as nat);
            proof {
                assert(before + comp_wires(*bp, pv, c as nat, 0) =~= before);
            }
            let mut q: usize = 0;
            while q < count
                invariant
                    lib == library@,
                    sources_fit(lib, *bp),
                    ports_fit(lib, *bp, pv),
                    pv == ports_view(ports@),
                    ports@.len() == bp.components@.len(),
                    ports_valid(pv, m0.len()),
                    n == bp.components@.len(),
                    c < n,
                    ct == bp.components@[c as int].component_type,
                    count == in_count(lib, ct),
                    pv[c as int].ins.len() == count,
                    q <= count,
                    self@ == connect_all(m0, before + comp_wires(*bp, pv, c as nat, q as nat)),
                    self@.wf(),
                    self@.len() == m0.len(),
                    same_kinds(m0, self@),
                decreases count - q,
            {
                let d = trace_driver(library, bp, ports, TargetPort::ComponentInput { component_idx: c, port_idx: q });
                proof {
                    lemma_trace_valid(lib, *bp, pv, comp_input(c as nat, q as nat), bp.connections@.len(), m0.len());
                }
                let ghost pre = before + comp_wires(*bp, pv, c as nat, q as nat);
                let ghost pw = port_wires(*bp, pv, c as nat, q as nat);
                if let OutputSource::DrivenByGate(src) = d {
                    let targets = &ports[c].inputs[q];
                    proof {
                        assert(pv[c as int] == ports@[c as int]@);
                        assert(targets@ == pv[c as int].ins[q as int]);
                        assert(pre + pw.take(0) =~= pre);
                    }
                    let nt = targets.len();
                    let mut t: usize = 0;
                    while t < nt
                        invariant
                            nt == targets@.len(),
                            targets@ == pv[c as int].ins[q as int],
                            0 <= c < pv.len(),
                            q < pv[c as int].ins.len(),
                            ports_valid(pv, m0.len()),
                            src < m0.len(),
                            pw == targets@.map_values(|x: (usize, u8)| (src, x.0, x.1)),
                            t <= nt,
                            self@ == connect_all(m0, pre + pw.take(t as int)),
                            self@.wf(),
                            self@.len() == m0.len(),
                            same_kinds(m0, self@),
                        decreases nt - t,
                    {
                        let (tg, tp) = targets[t];
                        proof {
                            assert(pv[c as int].ins[q as int][t as int] == (tg, tp));
                            assert((pre + pw.take(t + 1)) =~= (pre + pw.take(t as int)).push((src, tg, tp)));
                            lemma_connect_all_push(m0, pre + pw.take(t as int), (src, tg, tp));
                        }
                        self.connect(src, tg, tp);
                        t += 1;
                    }
                    proof {
                        assert(pw.take(nt as int) =~= pw);
                    }
                } else {
                    proof {
                        assert(pre + pw =~= pre);
                    }
                }
                proof {
                    assert(before + comp_wires(*bp, pv, c as nat, (q + 1) as nat) =~= pre + pw);
                }
                q += 1;
            }
            proof {
                assert(all_wires(lib, *bp, pv, (c + 1) as nat) == before + comp_wires(*bp, pv, c as nat, count as nat));
            }
            c += 1;
        }
    }
}

/// For each chip input of `bp`, the primitive inputs that it feeds.
fn resolve_chip_inputs(library: &[ChipBlueprint], bp: &ChipBlueprint, ports: &Vec<ComponentPorts>) -> (r: Vec<Vec<(usize, u8)>>)
    requires
        sources_fit(library@, *bp),
        ports_fit(library@, *bp, ports_view(ports@)),
        ports@.len() == bp.components@.len(),
    ensures
        r@.map_values(|v: Vec<(usize, u8)>| v@) == interface_of(library@, *bp, ports_view(ports@)).inputs,
{
    let ghost pv = ports_view(ports@);
    let ghost lib = library@;
    let n = bp.components.len();
    let mut inputs: Vec<Vec<(usize, u8)>> = Vec::new();
    let mut i: usize = 0;
    while i < bp.inputs
        invariant
            lib == library@,
            sources_fit(lib, *bp),
            ports_fit(lib, *bp, pv),
            pv == ports_view(ports@),
            ports@.len() == bp.components@.len(),
            n == bp.components@.len(),
            i <= bp.inputs,
            inputs@.len() == i,
            forall|j: int| 0 <= j < i ==> (#[trigger] inputs@[j])@ == all_feeds(lib, *bp, pv, n as nat, j as nat),
        decreases bp.inputs - i,
    {
        let mut feed: Vec<(usize, u8)> = Vec::new();
        let mut c: usize = 0;
        while c < n
            invariant
                lib == library@,
                sources_fit(lib, *bp),
                ports_fit(lib, *bp, pv),
                pv == ports_view(ports@),
                ports@.len() == bp.components@.len(),
                n == bp.components@.len(),
                c <= n,
                feed@ == all_feeds(lib, *bp, pv, c as nat, i as nat),
            decreases n - c,
        {
            let ct = bp.components[c].component_type;
            proof {
                assert(ports_fit_type(lib, bp.components@[c as int].component_type, pv[c as int]));
            }
            let count = input_count(library, ct);
            let ghost before = all_feeds(lib, *bp, pv, c as nat, i as nat);
            proof {
                assert(before + comp_feeds(*bp, pv, c as nat, 0, i as nat) =~= before);
            }
            let mut q: usize = 0;
            while q < count
                invariant
                    lib == library@,
                    sources_fit(lib, *bp),
                    ports_fit(lib, *bp, pv),
                    pv == ports_view(ports@),
                    ports@.len() == bp.components@.len(),
                    n == bp.components@.len(),
                    c < n,
                    ct == bp.components@[c as int].component_type,
                    count == in_count(lib, ct),
                    pv[c as int].ins.len() == count,
                    q <= count,
                    feed@ == before + comp_feeds(*bp, pv, c as nat, q as nat, i as nat),
                decreases count - q,
            {
                let d = trace_driver(library, bp, ports, TargetPort::ComponentInput { component_idx: c, port_idx: q });
                let ghost pre = feed@;
                let ghost pf = port_feeds(*bp, pv, c as nat, q as nat, i as nat);
                if d == OutputSource::PassedThrough(i) {
                    let targets = &ports[c].inputs[q];
                    proof {
                        assert(pv[c as int] == ports@[c as int]@);
                        assert(targets@ == pv[c as int].ins[q as int]);
                        assert(pf == targets@);
                        assert(pre + pf.take(0) =~= pre);
                    }
                    let nt = targets.len();
                    let mut t: usize = 0;
                    while t < nt
                        invariant
                            nt == targets@.len(),
                            pf == targets@,
                            t <= nt,
                            feed@ == pre + pf.take(t as int),
                        decreases nt - t,
                    {
                        feed.push(targets[t]);
                        proof {
                            assert(pre + pf.take(t + 1) =~= (pre + pf.take(t as int)).push(pf[t as int]));
                        }
                        t += 1;
                    }
                    proof {
                        assert(pf.take(nt as int) =~= pf);
                    }
                } else {
                    proof {
                        assert(pre + pf =~= pre);
                    }
                }
                proof {
                    assert(before + comp_feeds(*bp, pv, c as nat, (q + 1) as nat, i as nat) =~= pre + pf);
                }
                q += 1;
            }
            c += 1;
        }
        inputs.push(feed);
        i += 1;
    }
    proof {
        assert(inputs@.map_values(|v: Vec<(usize, u8)>| v@) =~= interface_of(lib, *bp, pv).inputs);
    }
    inputs
}

/// For each chip output of `bp`, its driver.
fn resolve_chip_outputs(library: &[ChipBlueprint], bp: &ChipBlueprint, ports: &Vec<ComponentPorts>) -> (r: Vec<OutputSource>)
    requires
        sources_fit(library@, *bp),
        ports_fit(library@, *bp, ports_view(ports@)),
        ports@.len() == bp.components@.len(),
    ensures
        r@ == interface_of(library@, *bp, ports_view(ports@)).outputs,
{
    let mut outputs: Vec<OutputSource> = Vec::new();
    let mut j: usize = 0;
    while j < bp.outputs
        invariant
            sources_fit(library@, *bp),
            ports_fit(library@, *bp, ports_view(ports@)),
            ports@.len() == bp.components@.len(),
            j <= bp.outputs,
            outputs@.len() == j,
            forall|k: int| 0 <= k < j ==> #[trigger] outputs@[k] == driver(*bp, ports_view(ports@), TargetPort::ChipOutput(k as usize)),
        decreases bp.outputs - j,
    {
        let d = trace_driver(library, bp, ports, TargetPort::ChipOutput(j));
        outputs.push(d);
        j += 1;
    }
    proof {
        assert(outputs@ =~= interface_of(library@, *bp, ports_view(ports@)).outputs);
    }
    outputs
}

/// Every primitive input that a chip input feeds is one that the ports name.
pub proof fn lemma_feeds_valid(lib: Seq<ChipBlueprint>, bp: ChipBlueprint, ports: Seq<PortsModel>, k: nat, i: nat, n: nat)
    requires
        ports_fit(lib, bp, ports),
        ports.len() == bp.components@.len(),
        k <= ports.len(),
        ports_valid(ports, n),
    ensures
        forall|x: int| 0 <= x < all_feeds(lib, bp, ports, k, i).len() ==> (#[trigger] all_feeds(lib, bp, ports, k, i)[x]).0
            < n && all_feeds(lib, bp, ports, k, i)[x].1 <= 1,
    decreases k,
{
    if k > 0 {
        lemma_feeds_valid(lib, bp, ports, (k - 1) as nat, i, n);
        let c = (k - 1) as nat;
        assert(ports_fit_type(lib, bp.components@[c as int].component_type, ports[c as int]));
        let a = all_feeds(lib, bp, ports, (k - 1) as nat, i);
        let b = comp_feeds(bp, ports, c, in_count(lib, bp.components@[c as int].component_type), i);
        lemma_comp_feeds_valid(lib, bp, ports, c, in_count(lib, bp.components@[c as int].component_type), i, n);
        assert forall|x: int| 0 <= x < (a + b).len() implies (#[trigger] (a + b)[x]).0 < n && (a + b)[x].1 <= 1 by {
            if x < a.len() {
                assert((a + b)[x] == a[x]);
            } else {
                assert((a + b)[x] == b[x - a.len()]);
            }
        }
        assert(all_feeds(lib, bp, ports, k, i) == a + b);
    }
}

pub proof fn lemma_comp_feeds_valid(lib: Seq<ChipBlueprint>, bp: ChipBlueprint, ports: Seq<PortsModel>, c: nat, q: nat, i: nat, n: nat)
    requires
        c < ports.len(),
        q <= ports[c as int].ins.len(),
        ports_valid(ports, n),
    ensures
        forall|x: int| 0 <= x < comp_feeds(bp, ports, c, q, i).len() ==> (#[trigger] comp_feeds(bp, ports, c, q, i)[x]).0
            < n && comp_feeds(bp, ports, c, q, i)[x].1 <= 1,
    decreases q,
{
    if q > 0 {
        lemma_comp_feeds_valid(lib, bp, ports, c, (q - 1) as nat, i, n);
        let pf = port_feeds(bp, ports, c, (q - 1) as nat, i);
        let a = comp_feeds(bp, ports, c, (q - 1) as nat, i);
        assert forall|x: int| 0 <= x < pf.len() implies (#[trigger] pf[x]).0 < n && pf[x].1 <= 1 by {
            assert(ports[c as int].ins[q - 1][x] == pf[x]);
        }
        assert forall|x: int| 0 <= x < (a + pf).len() implies (#[trigger] (a + pf)[x]).0 < n && (a + pf)[x].1 <= 1 by {
            if x < a.len() {
                assert((a + pf)[x] == a[x]);
            } else {
                assert((a + pf)[x] == pf[x - a.len()]);
            }
        }
        assert(comp_feeds(bp, ports, c, q, i) == a + pf);
    }
}

/// Every gate that an instantiated interface names is a gate of the simulator.
pub proof fn lemma_interface_valid(lib: Seq<ChipBlueprint>, bp: ChipBlueprint, ports: Seq<PortsModel>, n: nat)
    requires
        sources_fit(lib, bp),
        ports_fit(lib, bp, ports),
        ports.len() == bp.components@.len(),
        ports_valid(ports, n),
    ensures
        interface_valid(interface_of(lib, bp, ports), bp, n),
{
    let iface = interface_of(lib, bp, ports);
    assert forall|i: int, k: int| 0 <= i < iface.inputs.len() && 0 <= k < iface.inputs[i].len() implies (
    #[trigger] iface.inputs[i][k]).0 < n && iface.inputs[i][k].1 <= 1 by {
        lemma_feeds_valid(lib, bp, ports, bp.components@.len(), i as nat, n);
        assert(iface.inputs[i] == all_feeds(lib, bp, ports, bp.components@.len(), i as nat));
    }
    assert forall|o: int| 0 <= o < iface.outputs.len() implies (#[trigger] iface.outputs[o] matches OutputSource::DrivenByGate(
        g,
    ) ==> g < n) by {
        lemma_trace_valid(lib, bp, ports, TargetPort::ChipOutput(o as usize), bp.connections@.len(), n);
    }
}

impl Simulator {
    /// Instantiates a custom chip from the blueprint library and records mapping of instances to compiled gate indices.
    pub fn instantiate_chip_with_mapping(
        &mut self,
        blueprint_idx: usize,
        library: &[ChipBlueprint],
        path: &[usize],
        instance_map: &mut InstanceMap<usize>,
        instance_outputs: &mut InstanceMap<Vec<OutputSource>>,
        active_clocks: &mut Vec<CompiledClock>,
    ) -> (r: Result<InstantiatedInterface, String>)
        requires
            old(self)@.wf(),
            old(instance_map).wf(),
            old(instance_outputs).wf(),
            blueprint_idx < library@.len() ==> compiles_from(library@, blueprint_idx),
        ensures
            final(self)@.wf(),
            final(instance_map).wf(),
            final(instance_outputs).wf(),
            old(self)@.len() <= final(self)@.len(),
            same_kinds(old(self)@, final(self)@),
            clocks_valid(old(self)@, old(active_clocks)@) ==> clocks_valid(final(self)@, final(active_clocks)@),
            flat_state(*final(self), *final(instance_map), *final(instance_outputs), *final(active_clocks))
                == instantiate(library@, blueprint_idx, path@, flat_state(*old(self), *old(instance_map), *old(instance_outputs), *old(active_clocks))).0,
            match r {
                Ok(iface) => {
                    &&& instantiate(library@, blueprint_idx, path@, flat_state(*old(self), *old(instance_map), *old(instance_outputs), *old(active_clocks))).1
                        == Ok::<InterfaceModel, InstError>(iface@)
                    &&& interface_valid(iface@, library@[blueprint_idx as int], final(self)@.len())
                    // Compilation is flat: one primitive gate per NAND or clock of the
                    // whole hierarchy, and no other gate.
                    &&& final(self)@.len() == old(self)@.len() + gate_count(library@, blueprint_idx)
                },
                Err(e) => instantiate(library@, blueprint_idx, path@, flat_state(*old(self), *old(instance_map), *old(instance_outputs), *old(active_clocks))).1
                    matches Err(ie) && e@ == error_text(ie),
            },
    {
        proof {
            if blueprint_idx < library@.len() {
                lemma_returns_anywhere(
                    library@,
                    Seq::empty(),
                    blueprint_idx,
                    Seq::empty(),
                    empty_flat(SimModel::empty()),
                    path@,
                    flat_state(*self, *instance_map, *instance_outputs, *active_clocks),
                );
            }
        }
        self.instantiate_within(
            blueprint_idx,
            library,
            path,
            instance_map,
            instance_outputs,
            active_clocks,
            Ghost(Seq::empty()),
        )
    }

    /// The instantiation itself, inside the instantiations of the
    /// blueprints of `stack`.
    fn instantiate_within(
        &mut self,
        blueprint_idx: usize,
        library: &[ChipBlueprint],
        path: &[usize],
        instance_map: &mut InstanceMap<usize>,
        instance_outputs: &mut InstanceMap<Vec<OutputSource>>,
        active_clocks: &mut Vec<CompiledClock>,
        Ghost(stack): Ghost<Seq<usize>>,
    ) -> (r: Result<InstantiatedInterface, String>)
        requires
            old(self)@.wf(),
            old(instance_map).wf(),
            old(instance_outputs).wf(),
            instantiate_in(library@, stack, blueprint_idx, path@, flat_state(*old(self), *old(instance_map), *old(instance_outputs), *old(active_clocks))) is Some,
        ensures
            final(self)@.wf(),
            final(instance_map).wf(),
            final(instance_outputs).wf(),
            old(self)@.len() <= final(self)@.len(),
            same_kinds(old(self)@, final(self)@),
            clocks_valid(old(self)@, old(active_clocks)@) ==> clocks_valid(final(self)@, final(active_clocks)@),
            flat_state(*final(self), *final(instance_map), *final(instance_outputs), *final(active_clocks))
                == instantiate_in(library@, stack, blueprint_idx, path@, flat_state(*old(self), *old(instance_map), *old(instance_outputs), *old(active_clocks))).unwrap().0,
            match r {
                Ok(iface) => {
                    &&& instantiate_in(library@, stack, blueprint_idx, path@, flat_state(*old(self), *old(instance_map), *old(instance_outputs), *old(active_clocks))).unwrap().1
                        == Ok::<InterfaceModel, InstError>(iface@)
                    &&& interface_valid(iface@, library@[blueprint_idx as int], final(self)@.len())
                    // Compilation is flat: one primitive gate per NAND or clock of the
                    // whole hierarchy, and no other gate.
                    &&& final(self)@.len() == old(self)@.len() + gate_count_in(library@, stack, blueprint_idx)
                },
                Err(e) => instantiate_in(library@, stack, blueprint_idx, path@, flat_state(*old(self), *old(instance_map), *old(instance_outputs), *old(active_clocks))).unwrap().1
                    matches Err(ie) && e@ == error_text(ie),
            },
        decreases library@.len() - stack.len(),
    {
        let ghost st0 = flat_state(*self, *instance_map, *instance_outputs, *active_clocks);
        let ghost lib = library@;
        if blueprint_idx >= library.len() {
            return Err(not_found_message(blueprint_idx));
        }
        let blueprint = &library[blueprint_idx];
        let ghost inner = stack.push(blueprint_idx);
        proof {
            assert(!stack.contains(blueprint_idx) && stack.len() < lib.len());
            assert(alloc_components(lib, inner, blueprint_idx, path@, st0, lib[blueprint_idx as int].components@.len()) is Some);
            assert(ports_view(Seq::<ComponentPorts>::empty()) =~= Seq::<PortsModel>::empty());
        }
        let n = blueprint.components.len();
        let mut ports: Vec<ComponentPorts> = Vec::new();
        let mut k: usize = 0;
        // 1. Instantiate all internal components.
        while k < n
            invariant
                lib == library@,
                st0 == flat_state(*old(self), *old(instance_map), *old(instance_outputs), *old(active_clocks)),
                inner == stack.push(blueprint_idx),
                !stack.contains(blueprint_idx) && stack.len() < lib.len(),
                blueprint_idx < lib.len(),
                *blueprint == lib[blueprint_idx as int],
                n == blueprint.components@.len(),
                instantiate_in(lib, stack, blueprint_idx, path@, st0) is Some,
                alloc_components(lib, inner, blueprint_idx, path@, st0, n as nat) is Some,
                k <= n,
                alloc_components(lib, inner, blueprint_idx, path@, st0, k as nat) == Some((
                    flat_state(*self, *instance_map, *instance_outputs, *active_clocks),
                    ports_view(ports@),
                    None::<InstError>,
                )),
                self@.wf(),
                instance_map.wf(),
                instance_outputs.wf(),
                ports@.len() == k,
                ports_fit(lib, *blueprint, ports_view(ports@)),
                ports_valid(ports_view(ports@), self@.len()),
                st0.sim.len() <= self@.len(),
                same_kinds(st0.sim, self@),
                clocks_valid(st0.sim, st0.clocks) ==> clocks_valid(self@, active_clocks@),
                self@.len() == st0.sim.len() + gate_count_prefix(lib, inner, blueprint_idx, k as nat),
            decreases n - k,
        {
            let component = blueprint.components[k];
            let ghost s = flat_state(*self, *instance_map, *instance_outputs, *active_clocks);
            let ghost pv = ports_view(ports@);
            match component.component_type {
                ComponentType::Nand => {
                    let ghost m_before = self@;
                    let g = self.add_gate(GateType::Nand);
                    proof {
                        if clocks_valid(st0.sim, st0.clocks) {
                            lemma_clocks_valid_grow(m_before, self@, active_clocks@);
                        }
                    }
                    instance_map.insert((slice_to_vec(path), k), g);
                    let mut port_a: Vec<(usize, u8)> = Vec::new();
                    port_a.push((g, 0u8));
                    let mut port_b: Vec<(usize, u8)> = Vec::new();
                    port_b.push((g, 1u8));
                    let mut ins: Vec<Vec<(usize, u8)>> = Vec::new();
                    ins.push(port_a);
                    ins.push(port_b);
                    let mut outs: Vec<OutputSource> = Vec::new();
                    outs.push(OutputSource::DrivenByGate(g));
                    let np = ComponentPorts { inputs: ins, outputs: outs };
                    proof {
                        assert(np@.ins[0] =~= seq![(g, 0u8)]);
                        assert(np@.ins[1] =~= seq![(g, 1u8)]);
                        assert(np@.ins =~= nand_ports(g).ins);
                        assert(np@.outs =~= nand_ports(g).outs);
                        assert(np@ == nand_ports(g));
                    }
                    ports.push(np);
                    proof {
                        assert(ports_view(ports@) =~= pv.push(nand_ports(g)));
                    }
                },
                ComponentType::Clock => {
                    let ghost m_before = self@;
                    let g = self.add_gate(GateType::Input);
                    proof {
                        if clocks_valid(st0.sim, st0.clocks) {
                            lemma_clocks_valid_grow(m_before, self@, active_clocks@);
                        }
                    }
                    instance_map.insert((slice_to_vec(path), k), g);
                    let period = match component.clock_period {
                        Some(p) => p,
                        None => 20,
                    };
                    let ghost before_clocks = active_clocks@;
                    active_clocks.push(CompiledClock { gate_idx: g, period, counter: 0, visual_id: None });
                    proof {
                        if clocks_valid(st0.sim, st0.clocks) {
                            assert forall|j: int| 0 <= j < active_clocks@.len() implies {
                                &&& (#[trigger] active_clocks@[j]).gate_idx < self@.len()
                                &&& self@.gates[active_clocks@[j].gate_idx as int].gate_type == GateType::Input
                                &&& active_clocks@[j].counter < usize::MAX
                            } by {
                                if j < before_clocks.len() {
                                    assert(active_clocks@[j] == before_clocks[j]);
                                }
                            }
                        }
                    }
                    let mut outs: Vec<OutputSource> = Vec::new();
                    outs.push(OutputSource::DrivenByGate(g));
                    let np = ComponentPorts { inputs: Vec::new(), outputs: outs };
                    proof {
                        assert(np@.ins =~= clock_ports(g).ins);
                        assert(np@.outs =~= clock_ports(g).outs);
                        assert(np@ == clock_ports(g));
                    }
                    ports.push(np);
                    proof {
                        assert(ports_view(ports@) =~= pv.push(clock_ports(g)));
                    }
                },
                ComponentType::SubChip(sub_idx) => {
                    if sub_idx >= library.len() {
                        proof {
                            assert(lib[blueprint_idx as int].components@[k as int] == component);
                            assert(instantiate_in(lib, inner, sub_idx, path@.push(k), s) == Some(
                                (s, Err::<InterfaceModel, InstError>(InstError::NotFound(sub_idx))),
                            ));
                            lemma_alloc_error_stays(lib, inner, blueprint_idx, path@, st0, (k + 1) as nat, n as nat);
                        }
                        return Err(not_found_message(sub_idx));
                    }
                    proof {
                        assert(lib[blueprint_idx as int].components@[k as int] == component);
                        lemma_alloc_prefix_returns(lib, inner, blueprint_idx, path@, st0, (k + 1) as nat, n as nat);
                    }
                    // Recursively compile the sub-chip under the sub-path.
                    let mut sub_path = slice_to_vec(path);
                    sub_path.push(k);
                    let sub = self.instantiate_within(
                        sub_idx,
                        library,
                        sub_path.as_slice(),
                        instance_map,
                        instance_outputs,
                        active_clocks,
                        Ghost(inner),
                    );
                    match sub {
                        Ok(iface) => {
                            instance_outputs.insert((slice_to_vec(path), k), slice_to_vec(iface.outputs.as_slice()));
                            let ghost im = iface@;
                            let np = ComponentPorts { inputs: iface.inputs, outputs: iface.outputs };
                            proof {
                                assert(np@ == PortsModel { ins: im.inputs, outs: im.outputs });
                            }
                            ports.push(np);
                            proof {
                                assert(ports_view(ports@) =~= pv.push(PortsModel { ins: im.inputs, outs: im.outputs }));
                            }
                        },
                        Err(e) => {
                            proof {
                                lemma_alloc_error_stays(lib, inner, blueprint_idx, path@, st0, (k + 1) as nat, n as nat);
                            }
                            return Err(e);
                        },
                    }
                },
                ComponentType::Input | ComponentType::Output => {
                    proof {
                        lemma_alloc_error_stays(lib, inner, blueprint_idx, path@, st0, (k + 1) as nat, n as nat);
                    }
                    return Err("Blueprint components cannot contain top-level Input or Output internally".to_owned());
                },
            }
            k += 1;
        }
        proof {
            assert(sources_fit(lib, *blueprint));
        }
        // 2. Wire up all component inputs to their root drivers.
        let ghost m_before = self@;
        self.wire_component_inputs(library, blueprint, &ports);
        proof {
            if clocks_valid(st0.sim, st0.clocks) {
                lemma_clocks_valid_grow(m_before, self@, active_clocks@);
            }
        }
        // 3. Resolve the inputs of the chip's interface.
        let inputs = resolve_chip_inputs(library, blueprint, &ports);
        // 4. Resolve the outputs of the chip's interface.
        let outputs = resolve_chip_outputs(library, blueprint, &ports);
        let iface = InstantiatedInterface { inputs, outputs };
        proof {
            assert(gate_count_in(lib, stack, blueprint_idx) == gate_count_prefix(lib, inner, blueprint_idx, n as nat));
            lemma_interface_valid(lib, *blueprint, ports_view(ports@), self@.len());
            assert(iface@ =~= interface_of(lib, *blueprint, ports_view(ports@)));
        }
        Ok(iface)
    }

    /// Instantiates a custom chip from the blueprint library using compile-time wire aliasing.
    /// Bypasses string lookups and physical buffer gates, resolving inputs/outputs to their root sources.
    pub fn instantiate_chip(&mut self, blueprint_idx: usize, library: &[ChipBlueprint]) -> (r: Result<InstantiatedInterface, String>)
        requires
            old(self)@.wf(),
            blueprint_idx < library@.len() ==> compiles_from(library@, blueprint_idx),
        ensures
            final(self)@.wf(),
            old(self)@.len() <= final(self)@.len(),
            same_kinds(old(self)@, final(self)@),
            final(self)@ == instantiate(library@, blueprint_idx, Seq::empty(), empty_flat(old(self)@)).0.sim,
            match r {
                Ok(iface) => {
                    &&& instantiate(library@, blueprint_idx, Seq::empty(), empty_flat(old(self)@)).1 == Ok::<InterfaceModel, InstError>(iface@)
                    &&& interface_valid(iface@, library@[blueprint_idx as int], final(self)@.len())
                    &&& final(self)@.len() == old(self)@.len() + gate_count(library@, blueprint_idx)
                },
                Err(e) => instantiate(library@, blueprint_idx, Seq::empty(), empty_flat(old(self)@)).1 matches Err(ie) && e@ == error_text(ie),
            },
    {
        let mut dummy_map: InstanceMap<usize> = InstanceMap::new();
        let mut dummy_outputs: InstanceMap<Vec<OutputSource>> = InstanceMap::new();
        let mut dummy_clocks: Vec<CompiledClock> = Vec::new();
        let empty_path: Vec<usize> = Vec::new();
        proof {
            assert(flat_state(*self, dummy_map, dummy_outputs, dummy_clocks) == empty_flat(self@));
        }
        self.instantiate_chip_with_mapping(
            blueprint_idx,
            library,
            empty_path.as_slice(),
            &mut dummy_map,
            &mut dummy_outputs,
            &mut dummy_clocks,
        )
    }
}

/// The state of a compilation into simulator `m` with nothing recorded yet.
pub open spec fn empty_flat(m: SimModel) -> FlatState {
    FlatState { sim: m, inst: Map::empty(), outs: Map::empty(), clocks: Seq::empty() }
}

// ---------------------------------------------------------------------------
// The bound on tracing is exact
// ---------------------------------------------------------------------------

/// The `i`-th target of the walk that starts at `t` (it stays put once the
/// walk has found its driver).
pub open spec fn walk_node(bp: ChipBlueprint, ports: Seq<PortsModel>, t: TargetPort, i: nat) -> TargetPort
    decreases i,
{
    if i == 0 {
        t
    } else {
        let prev = walk_node(bp, ports, t, (i - 1) as nat);
        match walk_step(bp, ports, prev) {
            WalkStep::Next(c, j) => TargetPort::ComponentInput { component_idx: c, port_idx: j },
            WalkStep::Done(_) => prev,
        }
    }
}

/// The walk passes through a sub-chip at its `i`-th target.
pub open spec fn walk_goes_on(bp: ChipBlueprint, ports: Seq<PortsModel>, t: TargetPort, i: nat) -> bool {
    walk_step(bp, ports, walk_node(bp, ports, t, i)) is Next
}

/// Where the walk continues after a connection's source, if it passes through.
pub open spec fn successor_of(bp: ChipBlueprint, ports: Seq<PortsModel>, src: SourcePort) -> Option<TargetPort> {
    match src {
        SourcePort::ComponentOutput { component_idx: c, port_idx: p } => match bp.components@[c as int].component_type {
            ComponentType::SubChip(_) => match ports[c as int].outs[p as int] {
                OutputSource::PassedThrough(j) => Some(TargetPort::ComponentInput { component_idx: c, port_idx: j }),
                _ => None,
            },
            _ => None,
        },
        _ => None,
    }
}

/// Tracing with enough fuel for `k` pass-throughs continues at the `k`-th target.
pub proof fn lemma_trace_advance(bp: ChipBlueprint, ports: Seq<PortsModel>, t: TargetPort, k: nat, f: nat)
    requires
        k <= f,
        forall|i: nat| i < k ==> #[trigger] walk_goes_on(bp, ports, t, i),
    ensures
        trace(bp, ports, t, f) == trace(bp, ports, walk_node(bp, ports, t, k), (f - k) as nat),
    decreases k,
{
    if k > 0 {
        lemma_trace_advance(bp, ports, t, (k - 1) as nat, f);
        assert(walk_goes_on(bp, ports, t, (k - 1) as nat));
        let prev = walk_node(bp, ports, t, (k - 1) as nat);
        assert(f - (k - 1) > 0);
    }
}

/// A walk that comes back to a target it visited, passing through sub-chips
/// all the way round, goes round for ever: its trace is floating for any fuel.
pub proof fn lemma_trace_cycle(bp: ChipBlueprint, ports: Seq<PortsModel>, t: TargetPort, a: nat, b: nat, i: nat, f: nat)
    requires
        a <= i < b,
        walk_node(bp, ports, t, a) == walk_node(bp, ports, t, b),
        forall|j: nat| a <= j < b ==> #[trigger] walk_goes_on(bp, ports, t, j),
    ensures
        trace(bp, ports, walk_node(bp, ports, t, i), f) == OutputSource::Floating,
    decreases f,
{
    assert(walk_goes_on(bp, ports, t, i));
    if f > 0 {
        let next = if i + 1 < b {
            (i + 1) as nat
        } else {
            a
        };
        assert(walk_node(bp, ports, t, (i + 1) as nat) == walk_node(bp, ports, t, next));
        lemma_trace_cycle(bp, ports, t, a, b, next, (f - 1) as nat);
    }
}

/// A walk that passes through sub-chips more times than there are
/// connections visits some target twice.
pub proof fn lemma_walk_repeats(bp: ChipBlueprint, ports: Seq<PortsModel>, t: TargetPort)
    requires
        forall|i: nat| i <= bp.connections@.len() ==> #[trigger] walk_goes_on(bp, ports, t, i),
    ensures
        exists|a: nat, b: nat|
            1 <= a < b <= bp.connections@.len() + 1 && walk_node(bp, ports, t, a) == walk_node(bp, ports, t, b),
{
    broadcast use vstd::seq_lib::seq_to_set_is_finite;
    let conns = bp.connections@;
    let n = conns.len();
    let succs = Seq::new(n, |k: int| successor_of(bp, ports, conns[k].source));
    let visited = Seq::new(n + 1, |i: int| Some(walk_node(bp, ports, t, (i + 1) as nat)));
    assert forall|x: Option<TargetPort>| visited.to_set().contains(x) implies succs.to_set().contains(x) by {
        let i = choose|i: int| 0 <= i < visited.len() && visited[i] == x;
        let prev = walk_node(bp, ports, t, i as nat);
        assert(walk_goes_on(bp, ports, t, i as nat));
        lemma_source_feeding_in(conns, prev);
        let src = source_feeding(conns, prev).unwrap();
        let k = choose|k: int| 0 <= k < conns.len() && conns[k].source == src;
        assert(succs[k] == x);
    }
    succs.lemma_cardinality_of_set();
    if visited.no_duplicates() {
        visited.unique_seq_to_set();
        vstd::set_lib::lemma_len_subset(visited.to_set(), succs.to_set());
        assert(false);
    }
    let (p, q) = choose|p: int, q: int| 0 <= p < visited.len() && 0 <= q < visited.len() && p != q && visited[p] == visited[q];
    if p < q {
        assert(walk_node(bp, ports, t, (p + 1) as nat) == walk_node(bp, ports, t, (q + 1) as nat));
    } else {
        assert(walk_node(bp, ports, t, (q + 1) as nat) == walk_node(bp, ports, t, (p + 1) as nat));
    }
}

/// The first target at which the walk finds its driver, given one at or
/// before `s`.
pub proof fn lemma_first_stop(bp: ChipBlueprint, ports: Seq<PortsModel>, t: TargetPort, s: nat) -> (r: nat)
    requires
        !walk_goes_on(bp, ports, t, s),
    ensures
        r <= s,
        !walk_goes_on(bp, ports, t, r),
        forall|j: nat| j < r ==> #[trigger] walk_goes_on(bp, ports, t, j),
    decreases s,
{
    if exists|j: nat| j < s && !#[trigger] walk_goes_on(bp, ports, t, j) {
        let j = choose|j: nat| j < s && !#[trigger] walk_goes_on(bp, ports, t, j);
        lemma_first_stop(bp, ports, t, j)
    } else {
        s
    }
}

/// The bound on tracing is exact: tracing with one pass-through per
/// connection gives the same driver as tracing with any more fuel, so a
/// trace that exhausts it is caught in a loop of pass-through wires, which
/// no amount of following resolves.
pub proof fn law_trace_bound_is_exact(bp: ChipBlueprint, ports: Seq<PortsModel>, t: TargetPort, f: nat)
    requires
        f >= bp.connections@.len(),
    ensures
        trace(bp, ports, t, f) == driver(bp, ports, t),
{
    let n = bp.connections@.len();
    if exists|s: nat| s <= n && !#[trigger] walk_goes_on(bp, ports, t, s) {
        let s0 = choose|s: nat| s <= n && !#[trigger] walk_goes_on(bp, ports, t, s);
        let s = lemma_first_stop(bp, ports, t, s0);
        lemma_trace_advance(bp, ports, t, s, f);
        lemma_trace_advance(bp, ports, t, s, n);
    } else {
        assert forall|i: nat| i <= n implies #[trigger] walk_goes_on(bp, ports, t, i) by {}
        lemma_walk_repeats(bp, ports, t);
        let (a, b) = choose|a: nat, b: nat| 1 <= a < b <= n + 1 && walk_node(bp, ports, t, a) == walk_node(bp, ports, t, b);
        assert forall|j: nat| a <= j < b implies #[trigger] walk_goes_on(bp, ports, t, j) by {}
        lemma_trace_advance(bp, ports, t, a, f);
        lemma_trace_cycle(bp, ports, t, a, b, a, (f - a) as nat);
        lemma_trace_advance(bp, ports, t, n, n);
        assert(walk_goes_on(bp, ports, t, n));
    }
}


// ---------------------------------------------------------------------------
// Which output of a sub-chip a wire reads
// ---------------------------------------------------------------------------

/// A wire that reads output `p` of a sub-chip is driven by what drives that
/// very output of the sub-chip: when the sub-chip's output `p` is driven by
/// gate `g`, so is the target of the wire, whatever the sub-chip's other
/// outputs are; and when output `p` floats, so does the target.
pub proof fn law_sub_chip_output_is_read_by_port(
    bp: ChipBlueprint,
    ports: Seq<PortsModel>,
    t: TargetPort,
    c: usize,
    p: usize,
)
    requires
        source_feeding(bp.connections@, t) == Some(SourcePort::ComponentOutput { component_idx: c, port_idx: p }),
        c < bp.components@.len(),
        bp.components@[c as int].component_type is SubChip,
        c < ports.len(),
        p < ports[c as int].outs.len(),
    ensures
        ports[c as int].outs[p as int] matches OutputSource::DrivenByGate(g) ==> driver(bp, ports, t)
            == OutputSource::DrivenByGate(g),
        ports[c as int].outs[p as int] == OutputSource::Floating ==> driver(bp, ports, t) == OutputSource::Floating,
        ports[c as int].outs[p as int] matches OutputSource::PassedThrough(i) ==> successor_of(
            bp,
            ports,
            SourcePort::ComponentOutput { component_idx: c, port_idx: p },
        ) == Some(TargetPort::ComponentInput { component_idx: c, port_idx: i }),
{
    assert(bp.connections@.len() > 0) by {
        if bp.connections@.len() == 0 {
            assert(source_feeding(bp.connections@, t) is None);
        }
    }
}


/// The connection that feeds a target is the first one in the blueprint
/// that goes into it; a target with no connection into it is fed by none.
pub proof fn law_first_connection_feeds(conns: Seq<Connection>, t: TargetPort)
    ensures
        source_feeding(conns, t) is None <==> forall|k: int| 0 <= k < conns.len() ==> (#[trigger] conns[k]).target != t,
        source_feeding(conns, t) matches Some(src) ==> exists|k: int|
            0 <= k < conns.len() && conns[k].target == t && conns[k].source == src && forall|j: int|
                0 <= j < k ==> (#[trigger] conns[j]).target != t,
    decreases conns.len(),
{
    if conns.len() > 0 {
        let rest = conns.drop_first();
        law_first_connection_feeds(rest, t);
        if conns[0].target == t {
            assert(forall|j: int| 0 <= j < 0 ==> (#[trigger] conns[j]).target != t);
        } else {
            assert forall|k: int| 0 <= k < rest.len() implies (#[trigger] rest[k]) == conns[k + 1] by {}
            if source_feeding(conns, t) is None {
                assert forall|k: int| 0 <= k < conns.len() implies (#[trigger] conns[k]).target != t by {
                    if k > 0 {
                        assert(rest[k - 1] == conns[k]);
                    }
                }
            } else {
                let src = source_feeding(conns, t).unwrap();
                let k = choose|k: int|
                    0 <= k < rest.len() && rest[k].target == t && rest[k].source == src && forall|j: int|
                        0 <= j < k ==> (#[trigger] rest[j]).target != t;
                assert forall|j: int| 0 <= j < k + 1 implies (#[trigger] conns[j]).target != t by {
                    if j > 0 {
                        assert(rest[j - 1] == conns[j]);
                    }
                }
                assert(conns[k + 1] == rest[k]);
            }
            if forall|k: int| 0 <= k < conns.len() ==> (#[trigger] conns[k]).target != t {
                assert forall|k: int| 0 <= k < rest.len() implies (#[trigger] rest[k]).target != t by {
                    assert(rest[k] == conns[k + 1]);
                }
            }
        }
    }
}

/// A target fed from a chip input passes that input through; one fed from
/// a NAND or a clock is driven by that component's gate.
pub proof fn law_driver_reads_its_source(bp: ChipBlueprint, ports: Seq<PortsModel>, t: TargetPort, c: usize, p: usize)
    requires
        c < bp.components@.len(),
        c < ports.len(),
    ensures
        source_feeding(bp.connections@, t) matches Some(SourcePort::ChipInput(i)) ==> driver(bp, ports, t)
            == OutputSource::PassedThrough(i),
        source_feeding(bp.connections@, t) == Some(SourcePort::ComponentOutput { component_idx: c, port_idx: p })
            && (bp.components@[c as int].component_type is Nand || bp.components@[c as int].component_type is Clock)
            && ports[c as int].outs.len() > 0 ==> (ports[c as int].outs[0] matches OutputSource::DrivenByGate(g)
            ==> driver(bp, ports, t) == OutputSource::DrivenByGate(g)),
{
}

} // verus!
