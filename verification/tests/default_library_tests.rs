use logic_simulator::engine::EngineState;
use logic_simulator::{GateType, OutputSource, Simulator};

/// Compiles chip `idx` of the default library and returns its output for
/// each combination of inputs (input 0 is the most significant bit).
fn truth_table(idx: usize) -> Vec<bool> {
    let mut e = EngineState::default();
    e.setup_default_library();
    let library = e.library;
    let inputs = library[idx].inputs;
    let mut sim = Simulator::new();
    let mut gates = Vec::new();
    for _ in 0..inputs {
        gates.push(sim.add_gate(GateType::Input));
    }
    let iface = sim.instantiate_chip(idx, &library).expect("default chips compile");
    for (i, targets) in iface.inputs.iter().enumerate() {
        for &(t, p) in targets {
            sim.connect(gates[i], t, p);
        }
    }
    let out = match iface.outputs[0] {
        OutputSource::DrivenByGate(g) => g,
        other => panic!("unexpected driver {:?}", other),
    };
    let mut table = Vec::new();
    for row in 0..(1usize << inputs) {
        for i in 0..inputs {
            sim.set_input(gates[i], (row >> (inputs - 1 - i)) & 1 == 1);
        }
        assert!(sim.propagate_events(1000).is_ok());
        table.push(sim.get_state(out));
    }
    table
}

#[test]
fn default_library_has_the_starter_chips() {
    let mut e = EngineState::default();
    e.setup_default_library();
    let names: Vec<&str> = e.library.iter().map(|b| b.name.as_str()).collect();
    assert_eq!(names, vec!["AND", "OR", "XOR", "NOT", "NOR", "XNOR"]);
    assert_eq!(e.library[3].input_names, vec!["IN".to_string()]);
    assert_eq!(e.library[0].input_names, vec!["A".to_string(), "B".to_string()]);
    assert_eq!(e.library[5].output_names, vec!["OUT".to_string()]);
}

#[test]
fn default_chips_compute_their_truth_tables() {
    assert_eq!(truth_table(0), vec![false, false, false, true]);
    assert_eq!(truth_table(1), vec![false, true, true, true]);
    assert_eq!(truth_table(2), vec![false, true, true, false]);
    assert_eq!(truth_table(3), vec![true, false]);
    assert_eq!(truth_table(4), vec![true, false, false, false]);
    assert_eq!(truth_table(5), vec![true, false, false, true]);
}

#[test]
fn default_chips_flatten_to_their_nand_count() {
    let mut e = EngineState::default();
    e.setup_default_library();
    for (idx, n) in [2usize, 3, 4, 1, 4, 5].iter().enumerate() {
        let mut sim = Simulator::new();
        sim.instantiate_chip(idx, &e.library).expect("compiles");
        assert_eq!(sim.gates.len(), *n);
    }
}
