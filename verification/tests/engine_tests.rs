use logic_simulator::engine::EngineState;
use logic_simulator::canvas::{VisualComponent, VisualConnection};
use logic_simulator::{
    ChipBlueprint, CompiledClock, Component, ComponentType, Connection, GateType, OutputSource,
    SourcePort, TargetPort, TraceNode,
};

fn clock(gate_idx: usize, period: usize) -> CompiledClock {
    CompiledClock { gate_idx, period, counter: 0, visual_id: None }
}

fn and_chip() -> ChipBlueprint {
    ChipBlueprint {
        name: "AND".to_string(),
        inputs: 2,
        outputs: 1,
        input_names: vec!["A".to_string(), "B".to_string()],
        output_names: vec!["OUT".to_string()],
        components: vec![
            Component { component_type: ComponentType::Nand, clock_period: None },
            Component { component_type: ComponentType::Nand, clock_period: None },
        ],
        connections: vec![
            Connection { source: SourcePort::ChipInput(0), target: TargetPort::ComponentInput { component_idx: 0, port_idx: 0 } },
            Connection { source: SourcePort::ChipInput(1), target: TargetPort::ComponentInput { component_idx: 0, port_idx: 1 } },
            Connection { source: SourcePort::ComponentOutput { component_idx: 0, port_idx: 0 }, target: TargetPort::ComponentInput { component_idx: 1, port_idx: 0 } },
            Connection { source: SourcePort::ComponentOutput { component_idx: 0, port_idx: 0 }, target: TargetPort::ComponentInput { component_idx: 1, port_idx: 1 } },
            Connection { source: SourcePort::ComponentOutput { component_idx: 1, port_idx: 0 }, target: TargetPort::ChipOutput(0) },
        ],
    }
}

#[test]
fn default_engine_is_empty_and_playing() {
    let e = EngineState::default();
    assert!(e.library.is_empty());
    assert!(e.simulator.gates.is_empty());
    assert!(e.active_clocks.is_empty());
    assert!(e.is_playing);
    assert_eq!(e.ticks_per_frame, 1);
    assert_eq!(e.sim_tick_counter, 0);
    assert!(e.propagation_error.is_none());
    assert_eq!(e.instance_to_sim_map.len(), 0);
}

#[test]
fn clock_flips_every_half_period() {
    let mut e = EngineState::default();
    let g = e.simulator.add_gate(GateType::Input);
    e.active_clocks.push(clock(g, 4));
    // half period 2: it flips on ticks 2, 4, 6, ...
    let expected = [(1, false), (0, true), (1, true), (0, false), (1, false), (0, true)];
    for (tick, (counter, value)) in expected.iter().enumerate() {
        e.run_simulation_ticks();
        assert_eq!(e.active_clocks[0].counter, *counter, "counter after tick {}", tick + 1);
        assert_eq!(e.simulator.get_state(g), *value, "value after tick {}", tick + 1);
        assert_eq!(e.sim_tick_counter, tick + 1);
    }
    assert!(e.propagation_error.is_none());
}

#[test]
fn clocks_keep_separate_periods() {
    let mut e = EngineState::default();
    let fast = e.simulator.add_gate(GateType::Input);
    let slow = e.simulator.add_gate(GateType::Input);
    e.active_clocks.push(clock(fast, 2));
    e.active_clocks.push(clock(slow, 6));
    let mut fast_flips = 0;
    let mut slow_flips = 0;
    let mut fast_prev = false;
    let mut slow_prev = false;
    for _ in 0..12 {
        e.run_simulation_ticks();
        if e.simulator.get_state(fast) != fast_prev {
            fast_flips += 1;
            fast_prev = !fast_prev;
        }
        if e.simulator.get_state(slow) != slow_prev {
            slow_flips += 1;
            slow_prev = !slow_prev;
        }
    }
    assert_eq!(fast_flips, 12);
    assert_eq!(slow_flips, 4);
}

#[test]
fn period_below_two_flips_every_tick() {
    let mut e = EngineState::default();
    let g = e.simulator.add_gate(GateType::Input);
    e.active_clocks.push(clock(g, 1));
    e.run_simulation_ticks();
    assert_eq!(e.simulator.get_state(g), true);
    e.run_simulation_ticks();
    assert_eq!(e.simulator.get_state(g), false);
}

#[test]
fn frame_runs_ticks_per_frame_ticks() {
    let mut e = EngineState::default();
    let g = e.simulator.add_gate(GateType::Input);
    e.active_clocks.push(clock(g, 2));
    e.ticks_per_frame = 3;
    e.run_simulation_ticks();
    assert_eq!(e.sim_tick_counter, 3);
    assert_eq!(e.simulator.get_state(g), true);
}

#[test]
fn paused_engine_does_not_tick() {
    let mut e = EngineState::default();
    let g = e.simulator.add_gate(GateType::Input);
    e.active_clocks.push(clock(g, 2));
    e.is_playing = false;
    e.run_simulation_ticks();
    assert_eq!(e.sim_tick_counter, 0);
    assert_eq!(e.active_clocks[0].counter, 0);
    assert_eq!(e.simulator.get_state(g), false);
}

#[test]
fn clock_drives_network_through_gates() {
    let mut e = EngineState::default();
    let g = e.simulator.add_gate(GateType::Input);
    let inv = e.simulator.add_gate(GateType::Nand);
    e.simulator.connect(g, inv, 0);
    e.simulator.connect(g, inv, 1);
    e.active_clocks.push(clock(g, 2));
    e.run_simulation_ticks();
    assert_eq!(e.simulator.get_state(g), true);
    assert_eq!(e.simulator.get_state(inv), false);
    e.run_simulation_ticks();
    assert_eq!(e.simulator.get_state(inv), true);
}

#[test]
fn oscillating_network_stops_the_frame_with_an_error() {
    let mut e = EngineState::default();
    let g = e.simulator.add_gate(GateType::Nand);
    e.simulator.connect(g, g, 0);
    e.simulator.connect(g, g, 1);
    e.ticks_per_frame = 5;
    e.run_simulation_ticks();
    assert_eq!(e.sim_tick_counter, 1);
    assert_eq!(
        e.propagation_error.as_deref(),
        Some("Oscillation detected: exceeded max_steps limit of 1000")
    );
}

/// An AND chip placed on the canvas as component 7, fed by canvas inputs 1 and 2.
fn inspected_engine() -> (EngineState, Vec<VisualComponent>, Vec<VisualConnection>, usize, usize) {
    let mut e = EngineState::default();
    e.library.push(and_chip());
    let a = e.simulator.add_gate(GateType::Input);
    let b = e.simulator.add_gate(GateType::Input);
    e.visual_to_sim_map.insert(1, a);
    e.visual_to_sim_map.insert(2, b);
    e.port_to_sim_gate_map.insert((1, 0), a);
    e.port_to_sim_gate_map.insert((2, 0), b);
    let iface = e
        .simulator
        .instantiate_chip_with_mapping(
            0,
            &e.library.clone(),
            &[7],
            &mut e.instance_to_sim_map,
            &mut e.instance_outputs,
            &mut e.active_clocks,
        )
        .expect("AND compiles");
    for &(t, p) in &iface.inputs[0] {
        e.simulator.connect(a, t, p);
    }
    for &(t, p) in &iface.inputs[1] {
        e.simulator.connect(b, t, p);
    }
    let mut outs = Vec::new();
    outs.push(iface.outputs[0]);
    e.instance_outputs.insert((vec![], 7), outs);
    assert!(e.simulator.propagate_events(100).is_ok());
    let canvas = vec![
        VisualComponent { id: 1, comp_type: ComponentType::Input, label: "A".to_string(), clock_period: None },
        VisualComponent { id: 2, comp_type: ComponentType::Input, label: "B".to_string(), clock_period: None },
        VisualComponent { id: 7, comp_type: ComponentType::SubChip(0), label: "AND".to_string(), clock_period: None },
    ];
    let wires = vec![
        VisualConnection { src_comp_id: 1, src_port: 0, tgt_comp_id: 7, tgt_port: 0 },
        VisualConnection { src_comp_id: 2, src_port: 0, tgt_comp_id: 7, tgt_port: 1 },
    ];
    (e, canvas, wires, a, b)
}

#[test]
fn blueprint_of_a_path() {
    let (e, canvas, _, _, _) = inspected_engine();
    assert_eq!(e.get_blueprint_idx_for_path(&canvas, &vec![7]), Some(0));
    assert_eq!(e.get_blueprint_idx_for_path(&canvas, &vec![]), None);
    assert_eq!(e.get_blueprint_idx_for_path(&canvas, &vec![1]), None);
    assert_eq!(e.get_blueprint_idx_for_path(&canvas, &vec![99]), None);
    // Component 0 of AND is a NAND, not a sub-chip.
    assert_eq!(e.get_blueprint_idx_for_path(&canvas, &vec![7, 0]), None);
    assert_eq!(e.get_blueprint_idx_for_path(&canvas, &vec![7, 5]), None);
    let (bp, comps) = e.get_inspected_blueprint_and_components(&canvas, &vec![7]).expect("inspects AND");
    assert_eq!(bp.name, "AND");
    assert_eq!(comps.len(), 2);
    assert!(e.get_inspected_blueprint_and_components(&canvas, &vec![]).is_none());
}

#[test]
fn local_drivers_inside_an_instance() {
    let (e, _, _, _, _) = inspected_engine();
    let bp = &e.library[0];
    let path = vec![7];
    let gate1 = *e.instance_to_sim_map.get(&(vec![7], 1)).expect("gate of NAND 1");
    assert_eq!(e.trace_local_driver(&TraceNode::ChipOutput(0), bp, &path), OutputSource::DrivenByGate(gate1));
    assert_eq!(
        e.trace_local_driver(&TraceNode::CompInput { component_idx: 0, port_idx: 1 }, bp, &path),
        OutputSource::PassedThrough(1)
    );
    assert_eq!(e.trace_local_driver(&TraceNode::ChipInput(3), bp, &path), OutputSource::PassedThrough(3));
    assert_eq!(e.trace_local_driver(&TraceNode::ChipOutput(1), bp, &path), OutputSource::Floating);
    // The same blueprint in an instance that was never compiled is floating.
    assert_eq!(e.trace_local_driver(&TraceNode::ChipOutput(0), bp, &vec![8]), OutputSource::Floating);
}

#[test]
fn node_states_follow_the_inputs() {
    let (mut e, canvas, wires, a, b) = inspected_engine();
    let path = vec![7];
    let out = TraceNode::ChipOutput(0);
    let in_b = TraceNode::CompInput { component_idx: 0, port_idx: 1 };
    for &(va, vb) in &[(false, false), (true, false), (true, true), (false, true)] {
        e.simulator.set_input(a, va);
        e.simulator.set_input(b, vb);
        assert!(e.simulator.propagate_events(100).is_ok());
        assert_eq!(e.get_node_state_at_path(&canvas, &wires, &out, &path), va && vb);
        // An input of the inner NAND is traced out of the instance to canvas input B.
        assert_eq!(e.get_node_state_at_path(&canvas, &wires, &in_b, &path), vb);
        assert_eq!(e.get_node_state_at_path(&canvas, &wires, &TraceNode::ChipInput(0), &vec![]), va);
        assert_eq!(e.get_node_state_at_path(&canvas, &wires, &TraceNode::ChipInput(1), &vec![]), vb);
        assert_eq!(
            e.get_node_state_at_path(&canvas, &wires, &TraceNode::CompInput { component_idx: 7, port_idx: 0 }, &vec![]),
            va
        );
    }
    // Nothing is wired into port 2, and there is no third input.
    assert!(!e.get_node_state_at_path(&canvas, &wires, &TraceNode::CompInput { component_idx: 7, port_idx: 2 }, &vec![]));
    assert!(!e.get_node_state_at_path(&canvas, &wires, &TraceNode::ChipInput(2), &vec![]));
}
