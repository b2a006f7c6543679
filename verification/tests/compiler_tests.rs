use logic_simulator::instance_map::InstanceMap;
use logic_simulator::library_check::check_library;
use logic_simulator::{
    ChipBlueprint, Component, ComponentType, Connection, GateType, OutputSource, Simulator,
    SourcePort, TargetPort,
};

#[test]
fn test_compilation_and_nesting() {
    let library = vec![
        // 0: AND (2 NANDs)
        ChipBlueprint {
            name: "AND".to_string(),
            inputs: 2,
            outputs: 1,
            input_names: vec!["A".to_string(), "B".to_string()],
            output_names: vec!["OUT".to_string()],
            components: vec![
                Component { component_type: ComponentType::Nand, clock_period: None }, // Comp 0
                Component { component_type: ComponentType::Nand, clock_period: None }, // Comp 1
            ],
            connections: vec![
                Connection { source: SourcePort::ChipInput(0), target: TargetPort::ComponentInput { component_idx: 0, port_idx: 0 } },
                Connection { source: SourcePort::ChipInput(1), target: TargetPort::ComponentInput { component_idx: 0, port_idx: 1 } },
                Connection { source: SourcePort::ComponentOutput { component_idx: 0, port_idx: 0 }, target: TargetPort::ComponentInput { component_idx: 1, port_idx: 0 } },
                Connection { source: SourcePort::ComponentOutput { component_idx: 0, port_idx: 0 }, target: TargetPort::ComponentInput { component_idx: 1, port_idx: 1 } },
                Connection { source: SourcePort::ComponentOutput { component_idx: 1, port_idx: 0 }, target: TargetPort::ChipOutput(0) },
            ],
        },
        // 1: OR (3 NANDs)
        ChipBlueprint {
            name: "OR".to_string(),
            inputs: 2,
            outputs: 1,
            input_names: vec!["A".to_string(), "B".to_string()],
            output_names: vec!["OUT".to_string()],
            components: vec![
                Component { component_type: ComponentType::Nand, clock_period: None }, // Comp 0: A inverter
                Component { component_type: ComponentType::Nand, clock_period: None }, // Comp 1: B inverter
                Component { component_type: ComponentType::Nand, clock_period: None }, // Comp 2: NAND combination
            ],
            connections: vec![
                Connection { source: SourcePort::ChipInput(0), target: TargetPort::ComponentInput { component_idx: 0, port_idx: 0 } },
                Connection { source: SourcePort::ChipInput(0), target: TargetPort::ComponentInput { component_idx: 0, port_idx: 1 } },
                Connection { source: SourcePort::ChipInput(1), target: TargetPort::ComponentInput { component_idx: 1, port_idx: 0 } },
                Connection { source: SourcePort::ChipInput(1), target: TargetPort::ComponentInput { component_idx: 1, port_idx: 1 } },
                Connection { source: SourcePort::ComponentOutput { component_idx: 0, port_idx: 0 }, target: TargetPort::ComponentInput { component_idx: 2, port_idx: 0 } },
                Connection { source: SourcePort::ComponentOutput { component_idx: 1, port_idx: 0 }, target: TargetPort::ComponentInput { component_idx: 2, port_idx: 1 } },
                Connection { source: SourcePort::ComponentOutput { component_idx: 2, port_idx: 0 }, target: TargetPort::ChipOutput(0) },
            ],
        },
        // 2: XOR (nested OR, NAND, AND)
        ChipBlueprint {
            name: "XOR".to_string(),
            inputs: 2,
            outputs: 1,
            input_names: vec!["A".to_string(), "B".to_string()],
            output_names: vec!["OUT".to_string()],
            components: vec![
                Component { component_type: ComponentType::SubChip(1), clock_period: None }, // Comp 0: OR
                Component { component_type: ComponentType::Nand, clock_period: None },       // Comp 1: Nand
                Component { component_type: ComponentType::SubChip(0), clock_period: None }, // Comp 2: AND
            ],
            connections: vec![
                Connection { source: SourcePort::ChipInput(0), target: TargetPort::ComponentInput { component_idx: 0, port_idx: 0 } },
                Connection { source: SourcePort::ChipInput(1), target: TargetPort::ComponentInput { component_idx: 0, port_idx: 1 } },
                Connection { source: SourcePort::ChipInput(0), target: TargetPort::ComponentInput { component_idx: 1, port_idx: 0 } },
                Connection { source: SourcePort::ChipInput(1), target: TargetPort::ComponentInput { component_idx: 1, port_idx: 1 } },
                Connection { source: SourcePort::ComponentOutput { component_idx: 0, port_idx: 0 }, target: TargetPort::ComponentInput { component_idx: 2, port_idx: 0 } },
                Connection { source: SourcePort::ComponentOutput { component_idx: 1, port_idx: 0 }, target: TargetPort::ComponentInput { component_idx: 2, port_idx: 1 } },
                Connection { source: SourcePort::ComponentOutput { component_idx: 2, port_idx: 0 }, target: TargetPort::ChipOutput(0) },
            ],
        },
        // 3: PassThrough
        ChipBlueprint {
            name: "PassThrough".to_string(),
            inputs: 1,
            outputs: 1,
            input_names: vec!["IN".to_string()],
            output_names: vec!["OUT".to_string()],
            components: vec![],
            connections: vec![
                Connection { source: SourcePort::ChipInput(0), target: TargetPort::ChipOutput(0) },
            ],
        },
        // 4: BufferTest (Nand inverter -> PassThrough -> ChipOutput)
        ChipBlueprint {
            name: "BufferTest".to_string(),
            inputs: 1,
            outputs: 1,
            input_names: vec!["IN".to_string()],
            output_names: vec!["OUT".to_string()],
            components: vec![
                Component { component_type: ComponentType::Nand, clock_period: None }, // Comp 0: inverter
                Component { component_type: ComponentType::SubChip(3), clock_period: None }, // Comp 1: PassThrough
            ],
            connections: vec![
                Connection { source: SourcePort::ChipInput(0), target: TargetPort::ComponentInput { component_idx: 0, port_idx: 0 } },
                Connection { source: SourcePort::ChipInput(0), target: TargetPort::ComponentInput { component_idx: 0, port_idx: 1 } },
                Connection { source: SourcePort::ComponentOutput { component_idx: 0, port_idx: 0 }, target: TargetPort::ComponentInput { component_idx: 1, port_idx: 0 } },
                Connection { source: SourcePort::ComponentOutput { component_idx: 1, port_idx: 0 }, target: TargetPort::ChipOutput(0) },
            ],
        }
    ];

    let mut sim = Simulator::new();

    // 1. Compile XOR
    let in_a = sim.add_gate(GateType::Input);
    let in_b = sim.add_gate(GateType::Input);
    let xor_interface = sim.instantiate_chip(2, &library).expect("Failed to compile XOR");
    let out = sim.add_gate(GateType::Output);

    for &(tgt_idx, tgt_port) in &xor_interface.inputs[0] {
        sim.connect(in_a, tgt_idx, tgt_port);
    }
    for &(tgt_idx, tgt_port) in &xor_interface.inputs[1] {
        sim.connect(in_b, tgt_idx, tgt_port);
    }

    match xor_interface.outputs[0] {
        OutputSource::DrivenByGate(g_idx) => {
            sim.connect(g_idx, out, 0);
        }
        _ => panic!("Expected XOR output to be driven by a gate!"),
    }

    // Flat compilation: two inputs, one output and the six NANDs of XOR
    // (OR: 3, NAND: 1, AND: 2) are all the gates there are.
    assert_eq!(sim.gates.len(), 2 + 6 + 1);

    assert!(sim.propagate_events(100).is_ok());

    // Test XOR truth table:
    // A=0, B=0 => OUT=0
    sim.set_input(in_a, false);
    sim.set_input(in_b, false);
    assert!(sim.propagate_events(100).is_ok());
    assert_eq!(sim.get_state(out), false);

    // A=0, B=1 => OUT=1
    sim.set_input(in_a, false);
    sim.set_input(in_b, true);
    assert!(sim.propagate_events(100).is_ok());
    assert_eq!(sim.get_state(out), true);

    // A=1, B=0 => OUT=1
    sim.set_input(in_a, true);
    sim.set_input(in_b, false);
    assert!(sim.propagate_events(100).is_ok());
    assert_eq!(sim.get_state(out), true);

    // A=1, B=1 => OUT=0
    sim.set_input(in_a, true);
    sim.set_input(in_b, true);
    assert!(sim.propagate_events(100).is_ok());
    assert_eq!(sim.get_state(out), false);

    // 2. Compile and test BufferTest (inverter -> PassThrough -> output)
    let mut sim2 = Simulator::new();
    let b_in = sim2.add_gate(GateType::Input);
    let b_interface = sim2.instantiate_chip(4, &library).expect("Failed to compile BufferTest");
    let b_out = sim2.add_gate(GateType::Output);

    for &(tgt_idx, tgt_port) in &b_interface.inputs[0] {
        sim2.connect(b_in, tgt_idx, tgt_port);
    }

    match b_interface.outputs[0] {
        OutputSource::DrivenByGate(g_idx) => {
            sim2.connect(g_idx, b_out, 0);
        }
        _ => panic!("Expected BufferTest output to resolve to DrivenByGate!"),
    }

    // Test inverter + PassThrough:
    // Input = false => Output = true
    sim2.set_input(b_in, false);
    assert!(sim2.propagate_events(100).is_ok());
    assert_eq!(sim2.get_state(b_out), true);

    // Input = true => Output = false
    sim2.set_input(b_in, true);
    assert!(sim2.propagate_events(100).is_ok());
    assert_eq!(sim2.get_state(b_out), false);
}

#[test]
fn test_multi_domain_clocks() {
    let mut sim = Simulator::new();
    let library = vec![
        ChipBlueprint {
            name: "ClockChip".to_string(),
            inputs: 0,
            outputs: 1,
            input_names: vec![],
            output_names: vec!["OUT".to_string()],
            components: vec![
                Component { component_type: ComponentType::Clock, clock_period: Some(10) },
            ],
            connections: vec![
                Connection {
                    source: SourcePort::ComponentOutput { component_idx: 0, port_idx: 0 },
                    target: TargetPort::ChipOutput(0),
                }
            ],
        }
    ];

    let mut active_clocks = Vec::new();
    let mut inst_map = InstanceMap::new();
    let mut inst_outs = InstanceMap::new();
    let interface = sim.instantiate_chip_with_mapping(0, &library, &[], &mut inst_map, &mut inst_outs, &mut active_clocks)
        .expect("Failed to instantiate ClockChip");

    assert_eq!(active_clocks.len(), 1);
    let clock = &mut active_clocks[0];
    assert_eq!(clock.period, 10);

    // Ticks/propagation test
    let mut val = false;
    sim.set_input(clock.gate_idx, val);

    for tick in 1..=30 {
        clock.counter += 1;
        let half_period = (clock.period / 2).max(1); // 5 ticks
        if clock.counter >= half_period {
            clock.counter = 0;
            val = !val;
            sim.set_input(clock.gate_idx, val);
        }
        let _ = sim.propagate_events(50);

        let expected_val = if (tick / 5) % 2 == 1 { true } else { false };
        let out_idx = match interface.outputs[0] {
            OutputSource::DrivenByGate(g_idx) => g_idx,
            _ => panic!("Expected driven by gate output"),
        };
        assert_eq!(sim.get_state(out_idx), expected_val, "Failed at tick {}", tick);
    }
}

#[test]
fn compile_errors_name_their_cause() {
    let lib = vec![
        ChipBlueprint {
            name: "BAD".to_string(),
            inputs: 0,
            outputs: 0,
            input_names: vec![],
            output_names: vec![],
            components: vec![Component { component_type: ComponentType::SubChip(7), clock_period: None }],
            connections: vec![],
        },
        ChipBlueprint {
            name: "PIN".to_string(),
            inputs: 0,
            outputs: 0,
            input_names: vec![],
            output_names: vec![],
            components: vec![Component { component_type: ComponentType::Input, clock_period: None }],
            connections: vec![],
        },
    ];
    let mut sim = Simulator::new();
    assert_eq!(sim.instantiate_chip(5, &lib).err(), Some("Blueprint not found at index 5".to_string()));
    assert_eq!(sim.instantiate_chip(0, &lib).err(), Some("Blueprint not found at index 7".to_string()));
    assert_eq!(
        sim.instantiate_chip(1, &lib).err(),
        Some("Blueprint components cannot contain top-level Input or Output internally".to_string())
    );
}

#[test]
fn a_wire_loop_through_pass_throughs_floats() {
    let lib = vec![
        ChipBlueprint {
            name: "PASS".to_string(),
            inputs: 1,
            outputs: 1,
            input_names: vec!["IN".to_string()],
            output_names: vec!["OUT".to_string()],
            components: vec![],
            connections: vec![Connection { source: SourcePort::ChipInput(0), target: TargetPort::ChipOutput(0) }],
        },
        ChipBlueprint {
            name: "LOOP".to_string(),
            inputs: 0,
            outputs: 1,
            input_names: vec![],
            output_names: vec!["OUT".to_string()],
            components: vec![Component { component_type: ComponentType::SubChip(0), clock_period: None }],
            connections: vec![
                Connection {
                    source: SourcePort::ComponentOutput { component_idx: 0, port_idx: 0 },
                    target: TargetPort::ComponentInput { component_idx: 0, port_idx: 0 },
                },
                Connection {
                    source: SourcePort::ComponentOutput { component_idx: 0, port_idx: 0 },
                    target: TargetPort::ChipOutput(0),
                },
            ],
        },
    ];
    let mut sim = Simulator::new();
    let iface = sim.instantiate_chip(1, &lib).expect("compiles");
    assert_eq!(iface.outputs, vec![OutputSource::Floating]);
    assert!(sim.gates.is_empty());
    let pass = sim.instantiate_chip(0, &lib).expect("compiles");
    assert_eq!(pass.outputs, vec![OutputSource::PassedThrough(0)]);
    assert!(pass.inputs[0].is_empty());
}

#[test]
fn libraries_are_checked_before_compiling() {
    let nand = Component { component_type: ComponentType::Nand, clock_period: None };
    let bp = |name: &str, components: Vec<Component>, connections: Vec<Connection>| ChipBlueprint {
        name: name.to_string(),
        inputs: 1,
        outputs: 1,
        input_names: vec!["IN".to_string()],
        output_names: vec!["OUT".to_string()],
        components,
        connections,
    };
    let sub = |i: usize| Component { component_type: ComponentType::SubChip(i), clock_period: None };
    let from = |c: usize, p: usize| Connection {
        source: SourcePort::ComponentOutput { component_idx: c, port_idx: p },
        target: TargetPort::ChipOutput(0),
    };
    // Nested chips that use earlier and later chips, and a dangling reference.
    let good = vec![bp("A", vec![sub(1)], vec![from(0, 0)]), bp("B", vec![nand], vec![from(0, 0)]), bp("C", vec![sub(9)], vec![])];
    assert!(check_library(&good));
    assert!(check_library(&[]));
    // A chip that contains itself through another.
    let cycle = vec![bp("A", vec![sub(1)], vec![]), bp("B", vec![sub(0)], vec![])];
    assert!(!check_library(&cycle));
    let self_loop = vec![bp("A", vec![sub(0)], vec![])];
    assert!(!check_library(&self_loop));
    // A wire from a component that does not exist, or from an output a sub-chip lacks.
    assert!(!check_library(&[bp("A", vec![nand], vec![from(1, 0)])]));
    assert!(!check_library(&[bp("A", vec![sub(1)], vec![from(0, 1)]), bp("B", vec![], vec![])]));
}

#[test]
fn only_the_chips_a_blueprint_reaches_matter() {
    let nand = Component { component_type: ComponentType::Nand, clock_period: None };
    let lib = vec![
        ChipBlueprint {
            name: "NOT".to_string(),
            inputs: 1,
            outputs: 1,
            input_names: vec!["IN".to_string()],
            output_names: vec!["OUT".to_string()],
            components: vec![nand],
            connections: vec![
                Connection { source: SourcePort::ChipInput(0), target: TargetPort::ComponentInput { component_idx: 0, port_idx: 0 } },
                Connection { source: SourcePort::ChipInput(0), target: TargetPort::ComponentInput { component_idx: 0, port_idx: 1 } },
                Connection { source: SourcePort::ComponentOutput { component_idx: 0, port_idx: 0 }, target: TargetPort::ChipOutput(0) },
            ],
        },
        // A chip that contains itself: the library as a whole does not pass.
        ChipBlueprint {
            name: "SELF".to_string(),
            inputs: 0,
            outputs: 0,
            input_names: vec![],
            output_names: vec![],
            components: vec![Component { component_type: ComponentType::SubChip(1), clock_period: None }],
            connections: vec![],
        },
    ];
    assert!(!check_library(&lib));
    let mut sim = Simulator::new();
    let iface = sim.instantiate_chip(0, &lib).expect("NOT compiles on its own");
    assert_eq!(sim.gates.len(), 1);
    assert_eq!(iface.inputs, vec![vec![(0, 0), (0, 1)]]);
    assert_eq!(iface.outputs, vec![OutputSource::DrivenByGate(0)]);
    assert_eq!(sim.instantiate_chip(2, &lib).err(), Some("Blueprint not found at index 2".to_string()));
}

#[test]
fn a_nand_chip_compiles_to_its_own_wiring() {
    let nand = Component { component_type: ComponentType::Nand, clock_period: None };
    let lib = vec![ChipBlueprint {
        name: "AND".to_string(),
        inputs: 2,
        outputs: 1,
        input_names: vec!["A".to_string(), "B".to_string()],
        output_names: vec!["OUT".to_string()],
        components: vec![nand, nand, nand],
        connections: vec![
            Connection { source: SourcePort::ChipInput(0), target: TargetPort::ComponentInput { component_idx: 0, port_idx: 0 } },
            Connection { source: SourcePort::ChipInput(1), target: TargetPort::ComponentInput { component_idx: 0, port_idx: 1 } },
            Connection { source: SourcePort::ComponentOutput { component_idx: 0, port_idx: 0 }, target: TargetPort::ComponentInput { component_idx: 1, port_idx: 0 } },
            Connection { source: SourcePort::ComponentOutput { component_idx: 2, port_idx: 0 }, target: TargetPort::ComponentInput { component_idx: 1, port_idx: 1 } },
            // A second wire into the same input: the first one counts.
            Connection { source: SourcePort::ComponentOutput { component_idx: 1, port_idx: 0 }, target: TargetPort::ComponentInput { component_idx: 1, port_idx: 1 } },
            Connection { source: SourcePort::ComponentOutput { component_idx: 1, port_idx: 0 }, target: TargetPort::ChipOutput(0) },
        ],
    }];
    let mut sim = Simulator::new();
    sim.add_gate(GateType::Input);
    sim.instantiate_chip(0, &lib).expect("compiles");
    assert_eq!(sim.gates.len(), 4);
    assert_eq!(sim.gates[0].input_a_source, None);
    assert_eq!((sim.gates[1].input_a_source, sim.gates[1].input_b_source), (None, None));
    assert_eq!((sim.gates[2].input_a_source, sim.gates[2].input_b_source), (Some(1), Some(3)));
    assert_eq!((sim.gates[3].input_a_source, sim.gates[3].input_b_source), (None, None));
    assert!(sim.gates[1..].iter().all(|g| g.gate_type == GateType::Nand));
    // Once settled, each NAND shows the NAND of what is wired to it.
    sim.propagate_events(100).expect("settles");
    assert!(sim.get_state(1));
    assert!(sim.get_state(3));
    assert!(!sim.get_state(2));
}

#[test]
fn an_error_comes_before_what_follows_it() {
    let input = Component { component_type: ComponentType::Input, clock_period: None };
    let lib = vec![
        // An Input, then a sub-chip that contains itself, and a dangling wire.
        ChipBlueprint {
            name: "BAD".to_string(),
            inputs: 0,
            outputs: 1,
            input_names: vec![],
            output_names: vec!["OUT".to_string()],
            components: vec![input, Component { component_type: ComponentType::SubChip(1), clock_period: None }],
            connections: vec![Connection {
                source: SourcePort::ComponentOutput { component_idx: 9, port_idx: 0 },
                target: TargetPort::ChipOutput(0),
            }],
        },
        ChipBlueprint {
            name: "SELF".to_string(),
            inputs: 0,
            outputs: 0,
            input_names: vec![],
            output_names: vec![],
            components: vec![Component { component_type: ComponentType::SubChip(1), clock_period: None }],
            connections: vec![],
        },
    ];
    let mut sim = Simulator::new();
    assert_eq!(
        sim.instantiate_chip(0, &lib).err(),
        Some("Blueprint components cannot contain top-level Input or Output internally".to_string())
    );
    assert!(sim.gates.is_empty());
}
