use vstd::prelude::*;
use vstd::slice::slice_to_vec;

use crate::canvas::{VisualComponent, VisualConnection};
use crate::compiler::{find_source, source_feeding};
use crate::engine::EngineState;
use crate::types::{
    ChipBlueprint, Component, ComponentType, OutputSource, SourcePort, TargetPort, TraceNode,
};

verus! {

broadcast use vstd::std_specs::hash::group_hash_axioms;

/// The kind of the first canvas component with id `id`.
pub open spec fn canvas_type_of(canvas: Seq<VisualComponent>, id: usize) -> Option<ComponentType>
    decreases canvas.len(),
{
    if canvas.len() == 0 {
        None
    } else if canvas[0].id == id {
        Some(canvas[0].comp_type)
    } else {
        canvas_type_of(canvas.drop_first(), id)
    }
}

/// The ids of the input components of the canvas, in canvas order.
pub open spec fn input_ids(canvas: Seq<VisualComponent>) -> Seq<usize>
    decreases canvas.len(),
{
    if canvas.len() == 0 {
        Seq::empty()
    } else if canvas.last().comp_type == ComponentType::Input {
        input_ids(canvas.drop_last()).push(canvas.last().id)
    } else {
        input_ids(canvas.drop_last())
    }
}

/// The first canvas wire into input `port` of component `comp`.
pub open spec fn visual_source(conns: Seq<VisualConnection>, comp: usize, port: usize) -> Option<VisualConnection>
    decreases conns.len(),
{
    if conns.len() == 0 {
        None
    } else if conns[0].tgt_comp_id == comp && conns[0].tgt_port == port {
        Some(conns[0])
    } else {
        visual_source(conns.drop_first(), comp, port)
    }
}

/// The blueprint reached from blueprint `bp` by following the sub-chip
/// component indices of `rest`, one nesting level each.
pub open spec fn descend(lib: Seq<ChipBlueprint>, bp: usize, rest: Seq<usize>) -> Option<usize>
    decreases rest.len(),
{
    if rest.len() == 0 {
        Some(bp)
    } else if rest[0] < lib[bp as int].components@.len() {
        match lib[bp as int].components@[rest[0] as int].component_type {
            ComponentType::SubChip(s) => descend(lib, s, rest.drop_first()),
            _ => None,
        }
    } else {
        None
    }
}

/// Every blueprint that the descent opens is in the library.
pub open spec fn descent_in_range(lib: Seq<ChipBlueprint>, bp: usize, rest: Seq<usize>) -> bool
    decreases rest.len(),
{
    if rest.len() == 0 {
        true
    } else if bp >= lib.len() {
        false
    } else if rest[0] < lib[bp as int].components@.len() {
        match lib[bp as int].components@[rest[0] as int].component_type {
            ComponentType::SubChip(s) => descent_in_range(lib, s, rest.drop_first()),
            _ => true,
        }
    } else {
        true
    }
}

/// The blueprint of the sub-chip instance that `path` names: the first
/// element of the path is the id of a sub-chip on the canvas, each further
/// element the index of a sub-chip component inside the blueprint reached so
/// far.
pub open spec fn blueprint_at_path(canvas: Seq<VisualComponent>, lib: Seq<ChipBlueprint>, path: Seq<usize>) -> Option<usize> {
    if path.len() == 0 {
        None
    } else {
        match canvas_type_of(canvas, path[0]) {
            Some(ComponentType::SubChip(s)) => descend(lib, s, path.drop_first()),
            _ => None,
        }
    }
}

/// Every blueprint that resolving `path` opens is in the library.
pub open spec fn path_in_range(canvas: Seq<VisualComponent>, lib: Seq<ChipBlueprint>, path: Seq<usize>) -> bool {
    path.len() == 0 || match canvas_type_of(canvas, path[0]) {
        Some(ComponentType::SubChip(s)) => descent_in_range(lib, s, path.drop_first()),
        _ => true,
    }
}

/// What drives output `port` of component `comp` of blueprint `bp` in the
/// instance at `path`: a NAND or a clock is driven by its compiled gate, a
/// sub-chip output by what the compilation resolved for it, anything else by
/// nothing.
pub open spec fn comp_output_driver(
    bp: ChipBlueprint,
    comp: usize,
    port: usize,
    path: Seq<usize>,
    inst: Map<(Seq<usize>, usize), usize>,
    outs: Map<(Seq<usize>, usize), Seq<OutputSource>>,
) -> OutputSource {
    match bp.components@[comp as int].component_type {
        ComponentType::Nand | ComponentType::Clock => if inst.contains_key((path, comp)) {
            OutputSource::DrivenByGate(inst[(path, comp)])
        } else {
            OutputSource::Floating
        },
        ComponentType::SubChip(_) => if outs.contains_key((path, comp)) && port < outs[(path, comp)].len() {
            outs[(path, comp)][port as int]
        } else {
            OutputSource::Floating
        },
        ComponentType::Input | ComponentType::Output => OutputSource::Floating,
    }
}

/// What drives the signal that arrives from `src`.
pub open spec fn source_driver(
    src: SourcePort,
    bp: ChipBlueprint,
    path: Seq<usize>,
    inst: Map<(Seq<usize>, usize), usize>,
    outs: Map<(Seq<usize>, usize), Seq<OutputSource>>,
) -> OutputSource {
    match src {
        SourcePort::ChipInput(i) => OutputSource::PassedThrough(i),
        SourcePort::ComponentOutput { component_idx: c, port_idx: p } => comp_output_driver(bp, c, p, path, inst, outs),
    }
}

/// What drives a node of blueprint `bp` inside the instance at `path`,
/// looking through one wire: a gate, an input of the instance, or nothing.
pub open spec fn local_driver(
    node: TraceNode,
    bp: ChipBlueprint,
    path: Seq<usize>,
    inst: Map<(Seq<usize>, usize), usize>,
    outs: Map<(Seq<usize>, usize), Seq<OutputSource>>,
) -> OutputSource {
    match node {
        TraceNode::CompOutput { component_idx: c, port_idx: p } => comp_output_driver(bp, c, p, path, inst, outs),
        TraceNode::CompInput { component_idx: c, port_idx: p } => match source_feeding(
            bp.connections@,
            TargetPort::ComponentInput { component_idx: c, port_idx: p },
        ) {
            Some(src) => source_driver(src, bp, path, inst, outs),
            None => OutputSource::Floating,
        },
        TraceNode::ChipOutput(o) => match source_feeding(bp.connections@, TargetPort::ChipOutput(o)) {
            Some(src) => source_driver(src, bp, path, inst, outs),
            None => OutputSource::Floating,
        },
        TraceNode::ChipInput(i) => OutputSource::PassedThrough(i),
    }
}

pub open spec fn source_in_blueprint(src: Option<SourcePort>, bp: ChipBlueprint) -> bool {
    match src {
        Some(SourcePort::ComponentOutput { component_idx: c, .. }) => c < bp.components@.len(),
        _ => true,
    }
}

/// Every component that tracing `node` reads exists in `bp`.
pub open spec fn local_in_range(node: TraceNode, bp: ChipBlueprint) -> bool {
    match node {
        TraceNode::CompOutput { component_idx: c, .. } => c < bp.components@.len(),
        TraceNode::CompInput { component_idx: c, port_idx: p } => source_in_blueprint(
            source_feeding(bp.connections@, TargetPort::ComponentInput { component_idx: c, port_idx: p }),
            bp,
        ),
        TraceNode::ChipOutput(o) => source_in_blueprint(source_feeding(bp.connections@, TargetPort::ChipOutput(o)), bp),
        TraceNode::ChipInput(_) => true,
    }
}

/// Component outputs are traced first; every other node leads to one.
pub open spec fn node_rank(node: TraceNode) -> nat {
    match node {
        TraceNode::CompOutput { .. } => 0,
        _ => 1,
    }
}

/// The kind of the first canvas component with id `id`.
fn find_canvas_type(canvas: &Vec<VisualComponent>, id: usize) -> (r: Option<ComponentType>)
    ensures
        r == canvas_type_of(canvas@, id),
{
    let n = canvas.len();
    let mut i: usize = 0;
    proof {
        assert(canvas@.subrange(0, n as int) =~= canvas@);
    }
    while i < n
        invariant
            n == canvas@.len(),
            i <= n,
            canvas_type_of(canvas@, id) == canvas_type_of(canvas@.subrange(i as int, n as int), id),
        decreases n - i,
    {
        proof {
            assert(canvas@.subrange(i as int, n as int)[0] == canvas@[i as int]);
            assert(canvas@.subrange(i as int, n as int).drop_first() =~= canvas@.subrange(i + 1, n as int));
        }
        if canvas[i].id == id {
            return Some(canvas[i].comp_type);
        }
        i += 1;
    }
    None
}

/// The ids of the input components of the canvas, in canvas order.
fn canvas_input_ids(canvas: &Vec<VisualComponent>) -> (r: Vec<usize>)
    ensures
        r@ == input_ids(canvas@),
{
    let n = canvas.len();
    let mut ids: Vec<usize> = Vec::new();
    let mut i: usize = 0;
    while i < n
        invariant
            n == canvas@.len(),
            i <= n,
            ids@ == input_ids(canvas@.subrange(0, i as int)),
        decreases n - i,
    {
        proof {
            assert(canvas@.subrange(0, i + 1).drop_last() =~= canvas@.subrange(0, i as int));
        }
        if canvas[i].comp_type == ComponentType::Input {
            ids.push(canvas[i].id);
        }
        i += 1;
    }
    proof {
        assert(canvas@.subrange(0, n as int) =~= canvas@);
    }
    ids
}

/// The first canvas wire into input `port` of component `comp`.
fn find_visual_source(conns: &Vec<VisualConnection>, comp: usize, port: usize) -> (r: Option<VisualConnection>)
    ensures
        r == visual_source(conns@, comp, port),
{
    let n = conns.len();
    let mut i: usize = 0;
    proof {
        assert(conns@.subrange(0, n as int) =~= conns@);
    }
    while i < n
        invariant
            n == conns@.len(),
            i <= n,
            visual_source(conns@, comp, port) == visual_source(conns@.subrange(i as int, n as int), comp, port),
        decreases n - i,
    {
        proof {
            assert(conns@.subrange(i as int, n as int)[0] == conns@[i as int]);
            assert(conns@.subrange(i as int, n as int).drop_first() =~= conns@.subrange(i + 1, n as int));
        }
        if conns[i].tgt_comp_id == comp && conns[i].tgt_port == port {
            return Some(conns[i]);
        }
        i += 1;
    }
    None
}

impl EngineState {
    /// The index in the library of the blueprint of the sub-chip instance
    /// that `path` names; `None` when the path is empty, does not start at a
    /// sub-chip of the canvas, or leaves the blueprints.
    pub fn get_blueprint_idx_for_path(&self, canvas: &Vec<VisualComponent>, path: &Vec<usize>) -> (r: Option<usize>)
        requires
            path_in_range(canvas@, self.library@, path@),
        ensures
            r == blueprint_at_path(canvas@, self.library@, path@),
    {
        if path.len() == 0 {
            return None;
        }
        let first = find_canvas_type(canvas, path[0]);
        let start = match first {
            Some(ComponentType::SubChip(idx)) => idx,
            _ => {
                return None;
            },
        };
        let ghost lib = self.library@;
        let n = path.len();
        let mut cur = start;
        let mut i: usize = 1;
        proof {
            assert(path@.drop_first() =~= path@.subrange(1, n as int));
        }
        while i < n
            invariant
                lib == self.library@,
                n == path@.len(),
                1 <= i <= n,
                blueprint_at_path(canvas@, lib, path@) == descend(lib, start, path@.drop_first()),
                descend(lib, start, path@.drop_first()) == descend(lib, cur, path@.subrange(i as int, n as int)),
                descent_in_range(lib, cur, path@.subrange(i as int, n as int)),
            decreases n - i,
        {
            let ghost rest = path@.subrange(i as int, n as int);
            proof {
                assert(rest[0] == path@[i as int]);
                assert(rest.drop_first() =~= path@.subrange(i + 1, n as int));
            }
            let blueprint = &self.library[cur];
            let comp_idx = path[i];
            if comp_idx < blueprint.components.len() {
                match blueprint.components[comp_idx].component_type {
                    ComponentType::SubChip(idx) => {
                        cur = idx;
                    },
                    _ => {
                        return None;
                    },
                }
            } else {
                return None;
            }
            i += 1;
        }
        proof {
            assert(path@.subrange(n as int, n as int).len() == 0);
        }
        Some(cur)
    }

    /// The blueprint under inspection and a copy of its components, when
    /// `inspection_path` names a sub-chip instance.
    pub fn get_inspected_blueprint_and_components<'a>(
        &'a self,
        canvas: &Vec<VisualComponent>,
        inspection_path: &Vec<usize>,
    ) -> (r: Option<(&'a ChipBlueprint, Vec<Component>)>)
        requires
            path_in_range(canvas@, self.library@, inspection_path@),
            blueprint_at_path(canvas@, self.library@, inspection_path@) matches Some(b) ==> b
                < self.library@.len(),
        ensures
            match blueprint_at_path(canvas@, self.library@, inspection_path@) {
                Some(b) => r matches Some((bp, comps)) && *bp == self.library@[b as int] && comps@
                    == bp.components@,
                None => r is None,
            },
    {
        if inspection_path.len() == 0 {
            return None;
        }
        let bp_idx = match self.get_blueprint_idx_for_path(canvas, inspection_path) {
            Some(i) => i,
            None => {
                return None;
            },
        };
        let blueprint = &self.library[bp_idx];
        Some((blueprint, slice_to_vec(blueprint.components.as_slice())))
    }

    /// What drives output `port` of component `comp` of `blueprint` in the
    /// instance at `path`.
    fn component_output_driver(&self, blueprint: &ChipBlueprint, comp: usize, port: usize, path: &Vec<usize>) -> (r: OutputSource)
        requires
            self.instance_to_sim_map.wf(),
            self.instance_outputs.wf(),
            comp < blueprint.components@.len(),
        ensures
            r == comp_output_driver(*blueprint, comp, port, path@, self.instance_to_sim_map@, self.instance_outputs@),
    {
        let component = &blueprint.components[comp];
        match component.component_type {
            ComponentType::Nand | ComponentType::Clock => {
                let key = (slice_to_vec(path.as_slice()), comp);
                match self.instance_to_sim_map.get(&key) {
                    Some(g) => OutputSource::DrivenByGate(*g),
                    None => OutputSource::Floating,
                }
            },
            ComponentType::SubChip(_) => {
                let key = (slice_to_vec(path.as_slice()), comp);
                match self.instance_outputs.get(&key) {
                    Some(outputs) => {
                        if port < outputs.len() {
                            outputs[port]
                        } else {
                            OutputSource::Floating
                        }
                    },
                    None => OutputSource::Floating,
                }
            },
            ComponentType::Input | ComponentType::Output => OutputSource::Floating,
        }
    }

    /// What drives `node` of `blueprint` inside the instance at `path`,
    /// looking through one wire of the blueprint.
    pub fn trace_local_driver(&self, node: &TraceNode, blueprint: &ChipBlueprint, path: &Vec<usize>) -> (r: OutputSource)
        requires
            self.instance_to_sim_map.wf(),
            self.instance_outputs.wf(),
            local_in_range(*node, *blueprint),
        ensures
            r == local_driver(*node, *blueprint, path@, self.instance_to_sim_map@, self.instance_outputs@),
        decreases node_rank(*node),
    {
        match node {
            TraceNode::CompOutput { component_idx, port_idx } => {
                self.component_output_driver(blueprint, *component_idx, *port_idx, path)
            },
            TraceNode::CompInput { component_idx, port_idx } => {
                let target = TargetPort::ComponentInput { component_idx: *component_idx, port_idx: *port_idx };
                match find_source(&blueprint.connections, target) {
                    Some(SourcePort::ChipInput(i)) => OutputSource::PassedThrough(i),
                    Some(SourcePort::ComponentOutput { component_idx: src_c, port_idx: src_p }) => {
                        self.trace_local_driver(
                            &TraceNode::CompOutput { component_idx: src_c, port_idx: src_p },
                            blueprint,
                            path,
                        )
                    },
                    None => OutputSource::Floating,
                }
            },
            TraceNode::ChipOutput(out_idx) => {
                match find_source(&blueprint.connections, TargetPort::ChipOutput(*out_idx)) {
                    Some(SourcePort::ChipInput(i)) => OutputSource::PassedThrough(i),
                    Some(SourcePort::ComponentOutput { component_idx: src_c, port_idx: src_p }) => {
                        self.trace_local_driver(
                            &TraceNode::CompOutput { component_idx: src_c, port_idx: src_p },
                            blueprint,
                            path,
                        )
                    },
                    None => OutputSource::Floating,
                }
            },
            TraceNode::ChipInput(idx) => OutputSource::PassedThrough(*idx),
        }
    }
}

impl EngineState {
    /// The logic value that inspection shows for `node` in the instance at
    /// `path`. On the canvas itself (empty path) a chip input is the value of
    /// the canvas input of that rank, a component output the value of its
    /// driving gate, and a component input the value of the first wire into
    /// it. Inside an instance, the node is traced through its blueprint to a
    /// gate, or, when an input of the instance drives it, to that input in
    /// the parent. Anything unconnected reads 0.
    pub open spec fn node_state(
        &self,
        canvas: Seq<VisualComponent>,
        conns: Seq<VisualConnection>,
        node: TraceNode,
        path: Seq<usize>,
    ) -> bool
        decreases path.len(), node_rank(node),
    {
        let states = self.simulator@.states;
        if path.len() == 0 {
            match node {
                TraceNode::ChipInput(i) => {
                    let ids = input_ids(canvas);
                    if i < ids.len() && self.visual_to_sim_map@.contains_key(ids[i as int]) {
                        states[self.visual_to_sim_map@[ids[i as int]] as int]
                    } else {
                        false
                    }
                },
                TraceNode::CompOutput { component_idx: c, port_idx: p } => {
                    if self.port_to_sim_gate_map@.contains_key((c, p)) {
                        states[self.port_to_sim_gate_map@[(c, p)] as int]
                    } else {
                        false
                    }
                },
                TraceNode::CompInput { component_idx: c, port_idx: p } => match visual_source(conns, c, p) {
                    Some(w) => self.node_state(
                        canvas,
                        conns,
                        TraceNode::CompOutput { component_idx: w.src_comp_id, port_idx: w.src_port },
                        path,
                    ),
                    None => false,
                },
                TraceNode::ChipOutput(_) => false,
            }
        } else {
            match blueprint_at_path(canvas, self.library@, path) {
                Some(b) => match local_driver(
                    node,
                    self.library@[b as int],
                    path,
                    self.instance_to_sim_map@,
                    self.instance_outputs@,
                ) {
                    OutputSource::DrivenByGate(g) => states[g as int],
                    OutputSource::PassedThrough(i) => self.node_state(
                        canvas,
                        conns,
                        TraceNode::CompInput { component_idx: path.last(), port_idx: i },
                        path.drop_last(),
                    ),
                    OutputSource::Floating => false,
                },
                None => false,
            }
        }
    }

    /// Computing `node_state` reads only blueprints of the library,
    /// components of their blueprints and gates of the simulator.
    pub open spec fn query_ok(
        &self,
        canvas: Seq<VisualComponent>,
        conns: Seq<VisualConnection>,
        node: TraceNode,
        path: Seq<usize>,
    ) -> bool
        decreases path.len(), node_rank(node),
    {
        let n = self.simulator@.states.len();
        if path.len() == 0 {
            match node {
                TraceNode::ChipInput(i) => {
                    let ids = input_ids(canvas);
                    i < ids.len() && self.visual_to_sim_map@.contains_key(ids[i as int])
                        ==> self.visual_to_sim_map@[ids[i as int]] < n
                },
                TraceNode::CompOutput { component_idx: c, port_idx: p } => {
                    self.port_to_sim_gate_map@.contains_key((c, p)) ==> self.port_to_sim_gate_map@[(c, p)] < n
                },
                TraceNode::CompInput { component_idx: c, port_idx: p } => match visual_source(conns, c, p) {
                    Some(w) => self.query_ok(
                        canvas,
                        conns,
                        TraceNode::CompOutput { component_idx: w.src_comp_id, port_idx: w.src_port },
                        path,
                    ),
                    None => true,
                },
                TraceNode::ChipOutput(_) => true,
            }
        } else {
            path_in_range(canvas, self.library@, path) && match blueprint_at_path(canvas, self.library@, path) {
                Some(b) => b < self.library@.len() && local_in_range(node, self.library@[b as int]) && match local_driver(
                    node,
                    self.library@[b as int],
                    path,
                    self.instance_to_sim_map@,
                    self.instance_outputs@,
                ) {
                    OutputSource::DrivenByGate(g) => g < n,
                    OutputSource::PassedThrough(i) => self.query_ok(
                        canvas,
                        conns,
                        TraceNode::CompInput { component_idx: path.last(), port_idx: i },
                        path.drop_last(),
                    ),
                    OutputSource::Floating => true,
                },
                None => true,
            }
        }
    }

    /// The logic value of `node` in the instance at `path` (see
    /// `node_state`).
    pub fn get_node_state_at_path(
        &self,
        canvas: &Vec<VisualComponent>,
        connections: &Vec<VisualConnection>,
        node: &TraceNode,
        path: &Vec<usize>,
    ) -> (r: bool)
        requires
            self.instance_to_sim_map.wf(),
            self.instance_outputs.wf(),
            self.port_to_sim_gate_map.wf(),
            self.query_ok(canvas@, connections@, *node, path@),
        ensures
            r == self.node_state(canvas@, connections@, *node, path@),
        decreases path@.len(), node_rank(*node),
    {
        if path.len() == 0 {
            match node {
                TraceNode::ChipInput(idx) => {
                    let inputs = canvas_input_ids(canvas);
                    if *idx < inputs.len() {
                        match self.visual_to_sim_map.get(&inputs[*idx]) {
                            Some(g_idx) => {
                                return self.simulator.get_state(*g_idx);
                            },
                            None => {},
                        }
                    }
                },
                TraceNode::CompOutput { component_idx, port_idx } => {
                    match self.port_to_sim_gate_map.get((*component_idx, *port_idx)) {
                        Some(g_idx) => {
                            return self.simulator.get_state(g_idx);
                        },
                        None => {},
                    }
                },
                TraceNode::CompInput { component_idx, port_idx } => {
                    match find_visual_source(connections, *component_idx, *port_idx) {
                        Some(conn) => {
                            let src_node = TraceNode::CompOutput {
                                component_idx: conn.src_comp_id,
                                port_idx: conn.src_port,
                            };
                            return self.get_node_state_at_path(canvas, connections, &src_node, path);
                        },
                        None => {},
                    }
                },
                TraceNode::ChipOutput(_) => {},
            }
            return false;
        }
        let mut parent_path = slice_to_vec(path.as_slice());
        let comp_id_in_parent = match parent_path.pop() {
            Some(c) => c,
            None => {
                return false;
            },
        };
        match self.get_blueprint_idx_for_path(canvas, path) {
            Some(bp_idx) => {
                let blueprint = &self.library[bp_idx];
                match self.trace_local_driver(node, blueprint, path) {
                    OutputSource::DrivenByGate(g_idx) => self.simulator.get_state(g_idx),
                    OutputSource::PassedThrough(in_idx) => {
                        let parent_node = TraceNode::CompInput {
                            component_idx: comp_id_in_parent,
                            port_idx: in_idx,
                        };
                        self.get_node_state_at_path(canvas, connections, &parent_node, &parent_path)
                    },
                    OutputSource::Floating => false,
                }
            },
            None => false,
        }
    }
}


/// Inspecting output `p` of a sub-chip inside an instance shows what the
/// compilation resolved for that very output: the `p`-th of the outputs
/// recorded for the sub-chip's instance, whatever the other outputs are;
/// the same holds for a wire that reads that output.
pub proof fn law_sub_chip_output_is_inspected_by_port(
    bp: ChipBlueprint,
    comp: usize,
    p: usize,
    path: Seq<usize>,
    inst: Map<(Seq<usize>, usize), usize>,
    outs: Map<(Seq<usize>, usize), Seq<OutputSource>>,
)
    requires
        comp < bp.components@.len(),
        bp.components@[comp as int].component_type is SubChip,
        outs.contains_key((path, comp)),
        p < outs[(path, comp)].len(),
    ensures
        local_driver(TraceNode::CompOutput { component_idx: comp, port_idx: p }, bp, path, inst, outs)
            == outs[(path, comp)][p as int],
        source_driver(SourcePort::ComponentOutput { component_idx: comp, port_idx: p }, bp, path, inst, outs)
            == outs[(path, comp)][p as int],
{
}

} // verus!
