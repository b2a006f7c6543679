//! A gate-level digital logic simulator.
//!
//! - `simulator`: the event-driven network of NAND, input and output gates,
//!   with oscillation detection.
//! - `compiler`: flattens nested chip blueprints into that network;
//!   `library_check` tells whether a library can be compiled, and
//!   `flat_wiring` shows that a chip of NAND gates compiles to its own
//!   wiring and, once settled, computes what that wiring says.
//! - `engine`: the compiled circuit with its clocks, advanced tick by tick.
//! - `inspection`: the value of any node inside any nested chip instance.
//! - `canvas`: the editor's canvas: component ports and labels, packaging a
//!   canvas into a chip, deleting a selection, saving an edited chip.
//! - `canvas_compile`: compiling the canvas into the simulator.
//! - `history`: undo and redo.
//! - `library`, `library_import`, `reorder`: the global chip library, importing
//!   a project's chips into it, and reordering the engine's library.
//! - `default_library`: the starter chips.
pub mod types;
pub mod text;
pub mod simulator;
pub mod instance_map;
pub mod compiler;
pub mod library_check;
pub mod library;
pub mod library_import;
pub mod reorder;
pub mod engine;
pub mod canvas;
pub mod inspection;
pub mod history;
pub mod default_library;
pub mod canvas_compile;
pub mod flat_wiring;

pub use types::{
    ChipBlueprint, CompiledClock, Component, ComponentType, Connection, GateType,
    InstantiatedInterface, OutputSource, PrimitiveGate, SourcePort, TargetPort, TraceNode,
};
pub use simulator::Simulator;
