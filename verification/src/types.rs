use vstd::prelude::*;

verus! {

/// The primitive gates that the simulator evaluates.
#[derive(Debug, Clone, Copy, PartialEq, Eq, Structural)]
pub enum GateType {
    Nand,
    Input,
    Output,
}

/// One primitive gate and the gates that drive its two input ports.
/// `None` is a floating input, which reads as logic 0.
#[derive(Debug, Clone, Copy, PartialEq, Eq, Structural)]
pub struct PrimitiveGate {
    pub gate_type: GateType,
    pub input_a_source: Option<usize>,
    pub input_b_source: Option<usize>,
}

/// The kinds of component that a chip blueprint (or the canvas) can hold.
#[derive(Debug, Clone, Copy, PartialEq, Eq, Structural)]
pub enum ComponentType {
    Nand,
    Input,
    Output,
    Clock,
    /// Index of the sub-chip blueprint in the library.
    SubChip(usize),
}

/// A component of a blueprint. The layout position that the editor keeps
/// beside it is presentation data and is not part of the logic.
#[derive(Debug, Clone, Copy, PartialEq, Eq, Structural)]
pub struct Component {
    pub component_type: ComponentType,
    /// Half-period of a clock in ticks is `clock_period / 2`; only read for clocks.
    pub clock_period: Option<usize>,
}

/// Where a connection inside a blueprint takes its signal from.
#[derive(Debug, Clone, Copy, PartialEq, Eq, Structural)]
pub enum SourcePort {
    /// The i-th input of the chip itself.
    ChipInput(usize),
    ComponentOutput { component_idx: usize, port_idx: usize },
}

/// Where a connection inside a blueprint delivers its signal.
#[derive(Debug, Clone, Copy, PartialEq, Eq, Structural)]
pub enum TargetPort {
    /// The j-th output of the chip itself.
    ChipOutput(usize),
    ComponentInput { component_idx: usize, port_idx: usize },
}

#[derive(Debug, Clone, Copy, PartialEq, Eq, Structural)]
pub struct Connection {
    pub source: SourcePort,
    pub target: TargetPort,
}

/// A reusable chip: its interface, its components and its internal wiring.
#[derive(Debug)]
pub struct ChipBlueprint {
    pub name: String,
    pub inputs: usize,
    pub outputs: usize,
    pub input_names: Vec<String>,
    pub output_names: Vec<String>,
    pub components: Vec<Component>,
    pub connections: Vec<Connection>,
}

/// The content of a blueprint as mathematical values.
pub struct BlueprintModel {
    pub name: Seq<char>,
    pub inputs: usize,
    pub outputs: usize,
    pub input_names: Seq<Seq<char>>,
    pub output_names: Seq<Seq<char>>,
    pub components: Seq<Component>,
    pub connections: Seq<Connection>,
}

impl View for ChipBlueprint {
    type V = BlueprintModel;

    open spec fn view(&self) -> BlueprintModel {
        BlueprintModel {
            name: self.name@,
            inputs: self.inputs,
            outputs: self.outputs,
            input_names: self.input_names@.map_values(|s: String| s@),
            output_names: self.output_names@.map_values(|s: String| s@),
            components: self.components@,
            connections: self.connections@,
        }
    }
}

/// A copy of a list of strings.
pub fn copy_strings(v: &Vec<String>) -> (r: Vec<String>)
    ensures
        r@.map_values(|s: String| s@) == v@.map_values(|s: String| s@),
{
    let mut r: Vec<String> = Vec::new();
    let mut i: usize = 0;
    while i < v.len()
        invariant
            i <= v@.len(),
            r@.len() == i,
            forall|j: int| 0 <= j < i ==> (#[trigger] r@[j])@ == v@[j]@,
        decreases v@.len() - i,
    {
        r.push(v[i].clone());
        i += 1;
    }
    assert(r@.map_values(|s: String| s@) =~= v@.map_values(|s: String| s@));
    r
}

impl Clone for ChipBlueprint {
    fn clone(&self) -> (r: Self)
        ensures
            r@ == self@,
    {
        ChipBlueprint {
            name: self.name.clone(),
            inputs: self.inputs,
            outputs: self.outputs,
            input_names: copy_strings(&self.input_names),
            output_names: copy_strings(&self.output_names),
            components: vstd::slice::slice_to_vec(self.components.as_slice()),
            connections: vstd::slice::slice_to_vec(self.connections.as_slice()),
        }
    }
}

/// What finally drives an output of an instantiated chip.
#[derive(Clone, Copy, Debug, PartialEq, Eq, Structural)]
pub enum OutputSource {
    /// Driven by a primitive gate index.
    DrivenByGate(usize),
    /// Driven directly by the outer chip input port of this index.
    PassedThrough(usize),
    /// Not connected internally.
    Floating,
}

/// The flattened interface of an instantiated chip.
#[derive(Debug, Clone)]
pub struct InstantiatedInterface {
    /// Outer chip input index -> primitive targets (gate index, port).
    pub inputs: Vec<Vec<(usize, u8)>>,
    /// Outer chip output index -> its driver.
    pub outputs: Vec<OutputSource>,
}

/// A node of a blueprint's wiring graph, used when tracing drivers.
#[derive(Clone, Copy, Debug, PartialEq, Eq, Structural)]
pub enum TraceNode {
    ChipInput(usize),
    ChipOutput(usize),
    CompInput { component_idx: usize, port_idx: usize },
    CompOutput { component_idx: usize, port_idx: usize },
}

/// A clock that has been compiled onto an `Input` gate of the simulator.
#[derive(Clone, Copy, Debug, PartialEq, Eq, Structural)]
pub struct CompiledClock {
    pub gate_idx: usize,
    pub period: usize,
    pub counter: usize,
    /// Top-level visual component id, if the clock stands on the canvas.
    pub visual_id: Option<usize>,
}

} // verus!
