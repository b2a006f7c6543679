use logic_simulator::canvas::{
    delete_selection, package_current_canvas, remap_canvas_sub_chips, EditingTarget, VisualComponent,
    VisualConnection,
};
use std::collections::HashMap;
use logic_simulator::engine::EngineState;
use logic_simulator::{
    ChipBlueprint, Component, ComponentType, Connection, GateType, OutputSource, Simulator,
    SourcePort, TargetPort,
};

fn comp(id: usize, comp_type: ComponentType, label: &str) -> VisualComponent {
    VisualComponent { id, comp_type, label: label.to_string(), clock_period: None }
}

fn wire(src_comp_id: usize, src_port: usize, tgt_comp_id: usize, tgt_port: usize) -> VisualConnection {
    VisualConnection { src_comp_id, src_port, tgt_comp_id, tgt_port }
}

fn engine_with_chip() -> EngineState {
    let mut e = EngineState::default();
    e.library.push(ChipBlueprint {
        name: "HALF".to_string(),
        inputs: 2,
        outputs: 3,
        input_names: vec!["A".to_string(), "B".to_string()],
        output_names: vec!["S".to_string(), "C".to_string(), "X".to_string()],
        components: vec![],
        connections: vec![],
    });
    e
}

#[test]
fn ports_of_each_kind() {
    let e = engine_with_chip();
    assert_eq!(e.get_component_ports_count(ComponentType::Nand), (2, 1));
    assert_eq!(e.get_component_ports_count(ComponentType::Input), (0, 1));
    assert_eq!(e.get_component_ports_count(ComponentType::Output), (1, 0));
    assert_eq!(e.get_component_ports_count(ComponentType::Clock), (0, 1));
    assert_eq!(e.get_component_ports_count(ComponentType::SubChip(0)), (2, 3));
    assert_eq!(e.get_component_ports_count(ComponentType::SubChip(1)), (0, 0));
}

#[test]
fn labels_of_each_kind() {
    let e = engine_with_chip();
    assert_eq!(e.get_component_label(ComponentType::Nand), "NAND");
    assert_eq!(e.get_component_label(ComponentType::Input), "IN");
    assert_eq!(e.get_component_label(ComponentType::Output), "OUT");
    assert_eq!(e.get_component_label(ComponentType::Clock), "CLK");
    assert_eq!(e.get_component_label(ComponentType::SubChip(0)), "HALF");
    assert_eq!(e.get_component_label(ComponentType::SubChip(5)), "UNKNOWN");
}

#[test]
fn canvas_packages_into_a_chip() {
    let a = comp(1, ComponentType::Input, "A");
    let b = comp(2, ComponentType::Input, "IN");
    let nand = comp(3, ComponentType::Nand, "NAND");
    let out = comp(4, ComponentType::Output, "OUT");
    let canvas = vec![a.clone(), nand.clone(), b.clone(), out.clone()];
    let wires = vec![wire(1, 0, 3, 0), wire(2, 0, 3, 1), wire(3, 0, 4, 0), wire(9, 0, 3, 0)];
    let bp = package_current_canvas(&"MY_NAND".to_string(), &canvas, &wires, &vec![a, b], &vec![out])
        .expect("a chip");
    assert_eq!(bp.name, "MY_NAND");
    assert_eq!(bp.inputs, 2);
    assert_eq!(bp.outputs, 1);
    assert_eq!(bp.input_names, vec!["A".to_string(), "IN_1".to_string()]);
    assert_eq!(bp.output_names, vec!["OUT_0".to_string()]);
    assert_eq!(bp.components, vec![Component { component_type: ComponentType::Nand, clock_period: None }]);
    assert_eq!(
        bp.connections,
        vec![
            Connection { source: SourcePort::ChipInput(0), target: TargetPort::ComponentInput { component_idx: 0, port_idx: 0 } },
            Connection { source: SourcePort::ChipInput(1), target: TargetPort::ComponentInput { component_idx: 0, port_idx: 1 } },
            Connection { source: SourcePort::ComponentOutput { component_idx: 0, port_idx: 0 }, target: TargetPort::ChipOutput(0) },
        ]
    );

    // The packaged chip computes NAND.
    let library = vec![bp];
    let mut sim = Simulator::new();
    let ia = sim.add_gate(GateType::Input);
    let ib = sim.add_gate(GateType::Input);
    let iface = sim.instantiate_chip(0, &library).expect("compiles");
    for &(t, p) in &iface.inputs[0] {
        sim.connect(ia, t, p);
    }
    for &(t, p) in &iface.inputs[1] {
        sim.connect(ib, t, p);
    }
    let g = match iface.outputs[0] {
        OutputSource::DrivenByGate(g) => g,
        other => panic!("unexpected driver {:?}", other),
    };
    for &(va, vb) in &[(false, false), (false, true), (true, false), (true, true)] {
        sim.set_input(ia, va);
        sim.set_input(ib, vb);
        assert!(sim.propagate_events(100).is_ok());
        assert_eq!(sim.get_state(g), !(va && vb));
    }
}

#[test]
fn repeated_and_blank_pin_labels_are_numbered() {
    let pins = vec![
        comp(1, ComponentType::Input, "X"),
        comp(2, ComponentType::Input, "X"),
        comp(3, ComponentType::Input, "  \t"),
        comp(4, ComponentType::Input, ""),
        comp(5, ComponentType::Input, "X"),
    ];
    let wires = vec![wire(1, 0, 9, 0)];
    let canvas = vec![comp(9, ComponentType::Output, "Y")];
    let bp = package_current_canvas(&"P".to_string(), &canvas, &wires, &pins, &vec![comp(9, ComponentType::Output, "Y")])
        .expect("the wire to the output makes a chip");
    assert_eq!(
        bp.input_names,
        vec!["X".to_string(), "X_1".to_string(), "IN_2".to_string(), "IN_3".to_string(), "X_2".to_string()]
    );
    assert_eq!(bp.output_names, vec!["Y".to_string()]);
    assert!(bp.components.is_empty());
    assert_eq!(
        bp.connections,
        vec![Connection { source: SourcePort::ChipInput(0), target: TargetPort::ChipOutput(0) }]
    );
}

#[test]
fn empty_canvas_packages_into_nothing() {
    let a = comp(1, ComponentType::Input, "A");
    let out = comp(2, ComponentType::Output, "OUT");
    // Pins alone, with no wire between them, make no chip.
    assert!(package_current_canvas(&"E".to_string(), &vec![a.clone(), out.clone()], &vec![], &vec![a], &vec![out]).is_none());
    assert!(package_current_canvas(&"E".to_string(), &vec![], &vec![], &vec![], &vec![]).is_none());
}

#[test]
fn clocks_and_sub_chips_are_kept_with_their_settings() {
    let clk = VisualComponent { id: 5, comp_type: ComponentType::Clock, label: "CLK".to_string(), clock_period: Some(8) };
    let sub = comp(6, ComponentType::SubChip(2), "ADDER");
    let canvas = vec![clk, sub];
    let wires = vec![wire(5, 0, 6, 1)];
    let bp = package_current_canvas(&"C".to_string(), &canvas, &wires, &vec![], &vec![]).expect("a chip");
    assert_eq!(
        bp.components,
        vec![
            Component { component_type: ComponentType::Clock, clock_period: Some(8) },
            Component { component_type: ComponentType::SubChip(2), clock_period: None },
        ]
    );
    assert_eq!(
        bp.connections,
        vec![Connection {
            source: SourcePort::ComponentOutput { component_idx: 0, port_idx: 0 },
            target: TargetPort::ComponentInput { component_idx: 1, port_idx: 1 },
        }]
    );
}

#[test]
fn deleting_a_component_deletes_its_wires() {
    let mut comps = vec![
        comp(1, ComponentType::Input, "A"),
        comp(2, ComponentType::Nand, "NAND"),
        comp(3, ComponentType::Output, "OUT"),
    ];
    let mut wires = vec![wire(1, 0, 2, 0), wire(1, 0, 2, 1), wire(2, 0, 3, 0)];
    delete_selection(&mut comps, &mut wires, &vec![2], &vec![]);
    let ids: Vec<usize> = comps.iter().map(|c| c.id).collect();
    assert_eq!(ids, vec![1, 3]);
    assert!(wires.is_empty());
}

#[test]
fn deleting_selected_wires_keeps_the_components() {
    let mut comps = vec![comp(1, ComponentType::Input, "A"), comp(2, ComponentType::Output, "B")];
    let mut wires = vec![wire(1, 0, 2, 0), wire(2, 0, 1, 0), wire(1, 0, 2, 0)];
    delete_selection(&mut comps, &mut wires, &vec![], &vec![wire(1, 0, 2, 0)]);
    assert_eq!(comps.len(), 2);
    assert_eq!(wires, vec![wire(2, 0, 1, 0)]);
}

#[test]
fn deleting_nothing_changes_nothing() {
    let mut comps = vec![comp(1, ComponentType::Input, "A"), comp(1, ComponentType::Nand, "dup")];
    let mut wires = vec![wire(1, 0, 1, 0)];
    delete_selection(&mut comps, &mut wires, &vec![7], &vec![wire(3, 0, 4, 0)]);
    assert_eq!(comps.len(), 2);
    assert_eq!(wires, vec![wire(1, 0, 1, 0)]);
    // Both components with a deleted id go.
    delete_selection(&mut comps, &mut wires, &vec![1], &vec![]);
    assert!(comps.is_empty());
    assert!(wires.is_empty());
}

#[test]
fn saving_an_edited_chip_keeps_its_name() {
    let mut e = engine_with_chip();
    let a = comp(1, ComponentType::Input, "A");
    let out = comp(2, ComponentType::Output, "Q");
    let nand = comp(3, ComponentType::Nand, "NAND");
    let canvas = vec![a.clone(), nand.clone(), out.clone()];
    let wires = vec![wire(1, 0, 3, 0), wire(1, 0, 3, 1), wire(3, 0, 2, 0)];
    let packed = package_current_canvas(&"renamed".to_string(), &canvas, &wires, &vec![a], &vec![out]);
    let mut target = EditingTarget::LibraryChip(0);
    let mut stashed = Some("main canvas");
    assert_eq!(e.save_and_repack_blueprint(&mut target, &mut stashed, packed), Some("main canvas"));
    assert_eq!(stashed, None);
    assert_eq!(target, EditingTarget::MainCanvas);
    assert_eq!(e.library[0].name, "HALF");
    assert_eq!(e.library[0].inputs, 1);
    assert_eq!(e.library[0].output_names, vec!["Q".to_string()]);
    assert_eq!(e.library[0].connections.len(), 3);

    // On the main canvas nothing is saved.
    let mut main = EditingTarget::MainCanvas;
    let mut kept = Some("kept");
    assert_eq!(e.save_and_repack_blueprint(&mut main, &mut kept, None), None);
    assert_eq!(kept, Some("kept"));
    assert_eq!(main, EditingTarget::MainCanvas);
    assert_eq!(e.library[0].connections.len(), 3);

    // A chip index past the library changes nothing but the target.
    let mut gone = EditingTarget::LibraryChip(4);
    let again = package_current_canvas(&"x".to_string(), &canvas, &wires, &vec![], &vec![]);
    let mut nothing: Option<&str> = None;
    assert_eq!(e.save_and_repack_blueprint(&mut gone, &mut nothing, again), None);
    assert_eq!(gone, EditingTarget::MainCanvas);
    assert_eq!(e.library.len(), 1);
}

#[test]
fn loaded_canvas_follows_the_import_map() {
    let mut comps = vec![
        comp(1, ComponentType::SubChip(0), "A"),
        comp(2, ComponentType::SubChip(3), "B"),
        comp(3, ComponentType::Nand, "NAND"),
        comp(4, ComponentType::SubChip(1), "C"),
    ];
    let mut map = HashMap::new();
    map.insert(0, 7);
    map.insert(1, 2);
    remap_canvas_sub_chips(&mut comps, &map);
    let types: Vec<ComponentType> = comps.iter().map(|c| c.comp_type).collect();
    assert_eq!(
        types,
        vec![ComponentType::SubChip(7), ComponentType::SubChip(3), ComponentType::Nand, ComponentType::SubChip(2)]
    );
    assert_eq!(comps[0].label, "A");
    assert_eq!(comps[3].id, 4);
}

#[test]
fn unpacking_a_chip_lays_out_its_parts() {
    let mut e = EngineState::default();
    e.setup_default_library();
    let mut target = EditingTarget::MainCanvas;
    let mut stashed: Option<Vec<usize>> = None;
    let main_canvas = vec![42usize];
    let (cs, ws, next) =
        e.unpack_blueprint_to_canvas(0, &mut target, &mut stashed, main_canvas).expect("AND is in the library");
    assert_eq!(target, EditingTarget::LibraryChip(0));
    assert_eq!(stashed, Some(vec![42]));
    let ids: Vec<usize> = cs.iter().map(|c| c.id).collect();
    assert_eq!(ids, vec![1, 2, 3, 4, 5]);
    let labels: Vec<&str> = cs.iter().map(|c| c.label.as_str()).collect();
    assert_eq!(labels, vec!["NAND", "NAND", "A", "B", "OUT"]);
    assert_eq!(cs[2].comp_type, ComponentType::Input);
    assert_eq!(cs[4].comp_type, ComponentType::Output);
    assert_eq!(next, 6);
    assert_eq!(
        ws,
        vec![wire(3, 0, 1, 0), wire(4, 0, 1, 1), wire(1, 0, 2, 0), wire(1, 0, 2, 1), wire(2, 0, 5, 0)]
    );
    let mut t2 = EditingTarget::MainCanvas;
    let mut s2: Option<Vec<usize>> = None;
    assert!(e.unpack_blueprint_to_canvas(6, &mut t2, &mut s2, vec![7]).is_none());
    assert_eq!(t2, EditingTarget::MainCanvas);
    assert_eq!(s2, None);

    // Packaging the unpacked canvas gives the chip's wiring back.
    let ins = vec![cs[2].clone(), cs[3].clone()];
    let outs = vec![cs[4].clone()];
    let bp = package_current_canvas(&"AND".to_string(), &cs, &ws, &ins, &outs).expect("a chip");
    assert_eq!(bp.connections, e.library[0].connections);
    assert_eq!(bp.input_names, e.library[0].input_names);
}

#[test]
fn cancelling_returns_to_the_main_canvas() {
    let mut e = EngineState::default();
    e.setup_default_library();
    let before = e.library.len();
    let mut t = EditingTarget::MainCanvas;
    let mut stashed: Option<Vec<usize>> = None;
    let main_canvas = vec![1usize, 2, 3];
    e.unpack_blueprint_to_canvas(3, &mut t, &mut stashed, main_canvas.clone()).expect("NOT is in the library");
    assert_eq!(t, EditingTarget::LibraryChip(3));
    assert_eq!(logic_simulator::canvas::cancel_and_return(&mut t, &mut stashed), Some(main_canvas));
    assert_eq!(t, EditingTarget::MainCanvas);
    assert_eq!(stashed, None);
    assert_eq!(e.library.len(), before);
    // On the main canvas there is nothing to return to.
    assert_eq!(logic_simulator::canvas::cancel_and_return(&mut t, &mut stashed), None);
    assert_eq!(t, EditingTarget::MainCanvas);
}

#[test]
fn compiling_the_canvas_wires_gates_and_chips() {
    let mut e = EngineState::default();
    e.setup_default_library();
    // Default library: AND, OR, XOR, NOT, NOR, XNOR.
    let components = vec![
        comp(10, ComponentType::Input, "A"),
        comp(11, ComponentType::Nand, "NAND"),
        comp(12, ComponentType::Output, "Y"),
        comp(13, ComponentType::SubChip(3), "NOT"),
        comp(14, ComponentType::Output, "Z"),
        comp(15, ComponentType::SubChip(99), "MISSING"),
        VisualComponent { id: 16, comp_type: ComponentType::Clock, label: "CLK".to_string(), clock_period: Some(8) },
    ];
    let connections = vec![
        wire(10, 0, 11, 0),
        wire(10, 0, 11, 1),
        wire(11, 0, 12, 0),
        wire(11, 0, 13, 0),
        wire(13, 0, 14, 0),
        wire(15, 0, 14, 0),
    ];
    e.compile(&components, &connections);
    let g_in = e.visual_to_sim_map[&10];
    let g_nand = e.visual_to_sim_map[&11];
    let g_y = e.visual_to_sim_map[&12];
    let g_z = e.visual_to_sim_map[&14];
    assert_eq!((g_in, g_nand, g_y), (0, 1, 2));
    assert_eq!(e.simulator.gates[g_in].gate_type, GateType::Input);
    assert_eq!(e.simulator.gates[g_nand].gate_type, GateType::Nand);
    assert_eq!(e.simulator.gates[g_y].gate_type, GateType::Output);
    assert_eq!(e.simulator.gates[e.visual_to_sim_map[&16]].gate_type, GateType::Input);
    assert!(!e.visual_to_sim_map.contains_key(&13));
    assert!(!e.visual_to_sim_map.contains_key(&15));
    // One gate per primitive, one NAND for the NOT chip, one for the clock.
    assert_eq!(e.simulator.gates.len(), 6);
    assert_eq!(e.port_to_sim_gate_map.get((11, 0)), Some(g_nand));
    assert_eq!(e.port_to_sim_gate_map.get((10, 0)), Some(g_in));
    assert_eq!(e.port_to_sim_gate_map.get((13, 0)), Some(3));
    assert_eq!(e.port_to_sim_gate_map.get((15, 0)), None);
    assert_eq!(e.active_clocks.len(), 1);
    assert_eq!(e.active_clocks[0].gate_idx, 5);
    assert_eq!(e.active_clocks[0].period, 8);
    assert_eq!(e.active_clocks[0].visual_id, Some(16));
    assert_eq!(e.instance_outputs.get(&(vec![13], 13)), Some(&vec![OutputSource::DrivenByGate(3)]));
    // Input low: NAND gives 1, NOT gives 0; the first wire into Z wins.
    assert!(e.simulator.get_state(g_y));
    assert!(!e.simulator.get_state(g_z));
    e.simulator.set_input(g_in, true);
    e.simulator.propagate_events(100).expect("settles");
    assert!(!e.simulator.get_state(g_y));
    assert!(e.simulator.get_state(g_z));
}

#[test]
fn a_wire_loop_on_the_canvas_floats() {
    let mut e = EngineState::default();
    e.library.push(ChipBlueprint {
        name: "PASS".to_string(),
        inputs: 1,
        outputs: 1,
        input_names: vec!["IN".to_string()],
        output_names: vec!["OUT".to_string()],
        components: vec![],
        connections: vec![Connection { source: SourcePort::ChipInput(0), target: TargetPort::ChipOutput(0) }],
    });
    let components = vec![comp(1, ComponentType::SubChip(0), "PASS"), comp(2, ComponentType::Output, "OUT")];
    let connections = vec![wire(1, 0, 1, 0), wire(1, 0, 2, 0)];
    e.compile(&components, &connections);
    assert_eq!(e.simulator.gates.len(), 1);
    assert_eq!(e.port_to_sim_gate_map.get((1, 0)), None);
    assert_eq!(e.simulator.gates[0].input_a_source, None);
}

#[test]
fn a_new_wire_replaces_the_one_into_its_port() {
    let mut ws = vec![wire(1, 0, 3, 0), wire(2, 0, 3, 1), wire(1, 0, 3, 0), wire(4, 0, 5, 0)];
    logic_simulator::canvas::add_wire(&mut ws, wire(2, 0, 3, 0));
    assert_eq!(ws, vec![wire(2, 0, 3, 1), wire(4, 0, 5, 0), wire(2, 0, 3, 0)]);
    logic_simulator::canvas::add_wire(&mut ws, wire(2, 0, 3, 0));
    assert_eq!(ws, vec![wire(2, 0, 3, 1), wire(4, 0, 5, 0), wire(2, 0, 3, 0)]);
}
