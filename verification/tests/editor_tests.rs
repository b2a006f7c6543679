use logic_simulator::canvas::{package_current_canvas, VisualComponent, VisualConnection};
use logic_simulator::engine::EngineState;
use logic_simulator::{ChipBlueprint, ComponentType};

/// A canvas component with its vertical position on screen.
fn placed(id: usize, comp_type: ComponentType, y: f32, label: &str) -> (VisualComponent, f32) {
    (VisualComponent { id, comp_type, label: label.to_string(), clock_period: None }, y)
}

/// Packages the canvas as the editor does: input and output pins are taken
/// from top to bottom.
fn package(canvas: &[(VisualComponent, f32)], wires: &[VisualConnection]) -> Option<ChipBlueprint> {
    let pins = |t: ComponentType| -> Vec<VisualComponent> {
        let mut v: Vec<&(VisualComponent, f32)> = canvas.iter().filter(|(c, _)| c.comp_type == t).collect();
        v.sort_by(|a, b| a.1.total_cmp(&b.1));
        v.into_iter().map(|(c, _)| c.clone()).collect()
    };
    let components: Vec<VisualComponent> = canvas.iter().map(|(c, _)| c.clone()).collect();
    package_current_canvas(
        &String::new(),
        &components,
        &wires.to_vec(),
        &pins(ComponentType::Input),
        &pins(ComponentType::Output),
    )
}

fn collision_canvas() -> Vec<(VisualComponent, f32)> {
    vec![
        placed(1, ComponentType::Input, 0.0, "X"),
        placed(2, ComponentType::Input, 50.0, "X"),
        placed(3, ComponentType::Input, 100.0, "IN"),
        placed(4, ComponentType::Output, 0.0, "Y"),
        placed(5, ComponentType::Output, 50.0, "Y"),
        placed(6, ComponentType::Nand, 25.0, "NAND"),
    ]
}

#[test]
fn editor_test_custom_port_naming_collision() {
    let bp = package(&collision_canvas(), &[]).expect("Failed to package canvas");

    assert_eq!(bp.input_names.len(), 3);
    assert_eq!(bp.input_names[0], "X");
    assert_eq!(bp.input_names[1], "X_1");
    assert_eq!(bp.input_names[2], "IN_2");

    assert_eq!(bp.output_names.len(), 2);
    assert_eq!(bp.output_names[0], "Y");
    assert_eq!(bp.output_names[1], "Y_1");
}

#[test]
fn tests_test_custom_port_naming_collision() {
    let bp = package(&collision_canvas(), &[]).expect("Failed to package canvas");

    assert_eq!(bp.input_names.len(), 3);
    assert_eq!(bp.input_names[0], "X");
    assert_eq!(bp.input_names[1], "X_1");
    assert_eq!(bp.input_names[2], "IN_2");

    assert_eq!(bp.output_names.len(), 2);
    assert_eq!(bp.output_names[0], "Y");
    assert_eq!(bp.output_names[1], "Y_1");
}

#[test]
fn pins_are_ordered_top_to_bottom() {
    let canvas = vec![
        placed(1, ComponentType::Input, 90.0, "LOW"),
        placed(2, ComponentType::Input, 10.0, "HIGH"),
        placed(3, ComponentType::Output, 5.0, "Q"),
    ];
    let wires = vec![VisualConnection { src_comp_id: 1, src_port: 0, tgt_comp_id: 3, tgt_port: 0 }];
    let bp = package(&canvas, &wires).expect("a chip");
    assert_eq!(bp.input_names, vec!["HIGH".to_string(), "LOW".to_string()]);
    assert_eq!(bp.connections.len(), 1);
    assert_eq!(bp.connections[0].source, logic_simulator::SourcePort::ChipInput(1));
}

#[test]
fn test_get_component_ports_count() {
    let mut editor = EngineState::default();
    editor.library.clear();

    // Primitives
    assert_eq!(editor.get_component_ports_count(ComponentType::Nand), (2, 1));
    assert_eq!(editor.get_component_ports_count(ComponentType::Input), (0, 1));
    assert_eq!(editor.get_component_ports_count(ComponentType::Output), (1, 0));
    assert_eq!(editor.get_component_ports_count(ComponentType::Clock), (0, 1));

    // SubChip missing in library
    assert_eq!(editor.get_component_ports_count(ComponentType::SubChip(0)), (0, 0));

    // SubChip present in library
    editor.library.push(ChipBlueprint {
        name: "MyChip".to_string(),
        inputs: 4,
        outputs: 3,
        input_names: vec![],
        output_names: vec![],
        components: vec![],
        connections: vec![],
    });

    assert_eq!(editor.get_component_ports_count(ComponentType::SubChip(0)), (4, 3));
    // Invalid index
    assert_eq!(editor.get_component_ports_count(ComponentType::SubChip(99)), (0, 0));
}
