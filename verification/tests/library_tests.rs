use logic_simulator::canvas::VisualComponent;
use logic_simulator::instance_map::InstanceMap;
use logic_simulator::library::{ChipFolder, ChipLocation, GlobalLibrary};
use logic_simulator::reorder::{remap_library_chip, ActiveTool};
use logic_simulator::{ChipBlueprint, Component, ComponentType, Connection, SourcePort, TargetPort};
use std::collections::HashMap;
use std::hash::{Hash, Hasher};

fn chip(name: &str, inputs: usize, comps: Vec<ComponentType>) -> ChipBlueprint {
    ChipBlueprint {
        name: name.to_string(),
        inputs,
        outputs: 1,
        input_names: vec![],
        output_names: vec!["OUT".to_string()],
        components: comps
            .into_iter()
            .map(|t| Component { component_type: t, clock_period: None })
            .collect(),
        connections: vec![Connection {
            source: SourcePort::ChipInput(0),
            target: TargetPort::ChipOutput(0),
        }],
    }
}

fn on_canvas(types: Vec<ComponentType>) -> Vec<VisualComponent> {
    types
        .into_iter()
        .enumerate()
        .map(|(i, t)| VisualComponent { id: i + 1, comp_type: t, label: format!("c{}", i), clock_period: None })
        .collect()
}

fn kinds(canvas: &[VisualComponent]) -> Vec<ComponentType> {
    canvas.iter().map(|c| c.comp_type).collect()
}

fn sample_library() -> GlobalLibrary {
    GlobalLibrary {
        folders: vec![
            ChipFolder { name: "Gates".to_string(), chips: vec![chip("B", 1, vec![]), chip("C", 2, vec![])] },
            ChipFolder { name: "Empty".to_string(), chips: vec![] },
            ChipFolder { name: "More".to_string(), chips: vec![chip("D", 3, vec![])] },
        ],
        ungrouped: vec![chip("A", 4, vec![])],
    }
}

fn names(v: &[ChipBlueprint]) -> Vec<String> {
    v.iter().map(|b| b.name.clone()).collect()
}

#[test]
fn flat_list_puts_ungrouped_first_then_folders_in_order() {
    let lib = sample_library();
    assert_eq!(names(&lib.to_flat_list()), vec!["A", "B", "C", "D"]);
}

#[test]
fn flat_index_locations() {
    let lib = sample_library();
    assert_eq!(lib.flat_index_to_location(0), Some(ChipLocation::Ungrouped(0)));
    assert_eq!(lib.flat_index_to_location(1), Some(ChipLocation::InFolder(0, 0)));
    assert_eq!(lib.flat_index_to_location(2), Some(ChipLocation::InFolder(0, 1)));
    // The empty folder is skipped.
    assert_eq!(lib.flat_index_to_location(3), Some(ChipLocation::InFolder(2, 0)));
    assert_eq!(lib.flat_index_to_location(4), None);
}

#[test]
fn remove_at_flat_index_removes_that_chip() {
    let mut lib = sample_library();
    let removed = lib.remove_at_flat_index(2).expect("index 2 exists");
    assert_eq!(removed.name, "C");
    assert_eq!(names(&lib.to_flat_list()), vec!["A", "B", "D"]);
    assert!(lib.remove_at_flat_index(3).is_none());
    assert_eq!(names(&lib.to_flat_list()), vec!["A", "B", "D"]);
}

#[test]
fn move_chip_between_folders() {
    let mut lib = sample_library();
    lib.move_chip(ChipLocation::Ungrouped(0), Some(1));
    assert!(lib.ungrouped.is_empty());
    assert_eq!(names(&lib.folders[1].chips), vec!["A"]);
    // An unknown destination folder sends the chip to the ungrouped list.
    lib.move_chip(ChipLocation::InFolder(0, 1), Some(9));
    assert_eq!(names(&lib.ungrouped), vec!["C"]);
    // An invalid source changes nothing.
    lib.move_chip(ChipLocation::InFolder(5, 0), None);
    assert_eq!(names(&lib.to_flat_list()), vec!["C", "B", "A", "D"]);
    // Moves keep every chip exactly once.
    let mut all = names(&lib.to_flat_list());
    all.sort();
    assert_eq!(all, vec!["A", "B", "C", "D"]);
}

#[test]
fn blueprint_hash_ignores_names_but_not_content() {
    let empty = HashMap::new();
    let a = chip("A", 2, vec![ComponentType::Nand]);
    let renamed = chip("Other", 2, vec![ComponentType::Nand]);
    let different = chip("A", 2, vec![ComponentType::Nand, ComponentType::Nand]);
    assert_eq!(
        GlobalLibrary::blueprint_hash(&a, &empty),
        GlobalLibrary::blueprint_hash(&renamed, &empty)
    );
    assert_ne!(
        GlobalLibrary::blueprint_hash(&a, &empty),
        GlobalLibrary::blueprint_hash(&different, &empty)
    );
}

#[test]
fn blueprint_hash_follows_the_index_map() {
    let mut map = HashMap::new();
    map.insert(0usize, 5usize);
    let sub0 = chip("S", 1, vec![ComponentType::SubChip(0)]);
    let sub5 = chip("S", 1, vec![ComponentType::SubChip(5)]);
    assert_eq!(
        GlobalLibrary::blueprint_hash(&sub0, &map),
        GlobalLibrary::blueprint_hash(&sub5, &HashMap::new())
    );
}

#[test]
fn import_deduplicates_and_renames() {
    let mut lib = GlobalLibrary {
        folders: vec![],
        ungrouped: vec![chip("AND", 2, vec![ComponentType::Nand, ComponentType::Nand])],
    };
    let project = vec![
        // Same content as the library's AND: mapped onto it.
        chip("MY_AND", 2, vec![ComponentType::Nand, ComponentType::Nand]),
        // New content under a name that is taken: renamed.
        chip("AND", 1, vec![ComponentType::Nand]),
        // Uses the first project chip: its reference is renumbered.
        chip("WRAP", 2, vec![ComponentType::SubChip(0)]),
    ];
    let map = lib.import_from_project(&project);
    assert_eq!(map.get(&0), Some(&0));
    assert_eq!(map.get(&1), Some(&1));
    assert_eq!(map.get(&2), Some(&2));
    assert_eq!(names(&lib.ungrouped), vec!["AND", "AND_1", "WRAP"]);
    assert_eq!(lib.ungrouped[2].components[0].component_type, ComponentType::SubChip(0));

    // A second import of the same project adds nothing.
    let again = lib.import_from_project(&project);
    assert_eq!(lib.ungrouped.len(), 3);
    assert_eq!(again.get(&1), Some(&1));
    assert_eq!(again.get(&2), Some(&2));
}

#[test]
fn import_renames_past_taken_suffixes() {
    let mut lib = GlobalLibrary {
        folders: vec![],
        ungrouped: vec![chip("X", 1, vec![]), chip("X_1", 2, vec![])],
    };
    let map = lib.import_from_project(&[chip("X", 3, vec![])]);
    assert_eq!(map.get(&0), Some(&2));
    assert_eq!(names(&lib.ungrouped), vec!["X", "X_1", "X_2"]);
}

#[test]
fn remap_library_chip_moves_and_renumbers() {
    let mut library = vec![
        chip("L0", 1, vec![]),
        chip("L1", 1, vec![ComponentType::SubChip(0)]),
        chip("L2", 1, vec![ComponentType::SubChip(1), ComponentType::Nand]),
    ];
    let mut canvas = on_canvas(vec![ComponentType::SubChip(2), ComponentType::Input, ComponentType::SubChip(0)]);
    let mut tool = Some(ActiveTool::PlaceComponent(ComponentType::SubChip(0)));
    remap_library_chip(&mut library, &mut canvas, &mut tool, 0, 2);
    assert_eq!(names(&library), vec!["L1", "L2", "L0"]);
    assert_eq!(library[0].components[0].component_type, ComponentType::SubChip(2));
    assert_eq!(library[1].components[0].component_type, ComponentType::SubChip(0));
    assert_eq!(library[1].components[1].component_type, ComponentType::Nand);
    assert_eq!(kinds(&canvas), vec![ComponentType::SubChip(1), ComponentType::Input, ComponentType::SubChip(2)]);
    assert_eq!(canvas[2].id, 3);
    assert_eq!(canvas[2].label, "c2");
    assert_eq!(tool, Some(ActiveTool::PlaceComponent(ComponentType::SubChip(2))));

    // Moving back restores the library as it was.
    remap_library_chip(&mut library, &mut canvas, &mut tool, 2, 0);
    assert_eq!(names(&library), vec!["L0", "L1", "L2"]);
    assert_eq!(library[2].components[0].component_type, ComponentType::SubChip(1));
    assert_eq!(kinds(&canvas), vec![ComponentType::SubChip(2), ComponentType::Input, ComponentType::SubChip(0)]);
    assert_eq!(tool, Some(ActiveTool::PlaceComponent(ComponentType::SubChip(0))));
}

#[test]
fn remap_library_chip_ignores_invalid_moves() {
    let mut library = vec![chip("L0", 1, vec![]), chip("L1", 1, vec![ComponentType::SubChip(0)])];
    let mut canvas = on_canvas(vec![ComponentType::SubChip(1)]);
    let mut tool = None;
    remap_library_chip(&mut library, &mut canvas, &mut tool, 1, 1);
    remap_library_chip(&mut library, &mut canvas, &mut tool, 0, 7);
    assert_eq!(names(&library), vec!["L0", "L1"]);
    assert_eq!(kinds(&canvas), vec![ComponentType::SubChip(1)]);
}

#[test]
fn instance_map_insert_replaces() {
    let mut m: InstanceMap<usize> = InstanceMap::new();
    m.insert((vec![1, 2], 3), 10);
    m.insert((vec![1], 3), 11);
    m.insert((vec![1, 2], 3), 12);
    assert_eq!(m.len(), 2);
    assert_eq!(m.get(&(vec![1, 2], 3)), Some(&12));
    assert_eq!(m.get(&(vec![1], 3)), Some(&11));
    assert_eq!(m.get(&(vec![2], 3)), None);
}

#[test]
fn import_places_new_chips_before_the_folders() {
    // Flat list before: [U0, F0 (in a folder), F1 (in a folder, uses F0)].
    let mut lib = GlobalLibrary {
        folders: vec![ChipFolder {
            name: "Gates".to_string(),
            chips: vec![chip("F0", 3, vec![]), chip("F1", 4, vec![ComponentType::SubChip(1)])],
        }],
        ungrouped: vec![chip("U0", 1, vec![ComponentType::SubChip(2)])],
    };
    let project = vec![
        chip("NEW", 5, vec![]),
        // Same content as F1: the library's chip.
        chip("F1_COPY", 4, vec![ComponentType::SubChip(1)]),
        chip("USER", 6, vec![ComponentType::SubChip(0), ComponentType::SubChip(1)]),
    ];
    let map = lib.import_from_project(&project);
    // Flat list after: [U0, NEW, USER, F0, F1].
    assert_eq!(names(&lib.to_flat_list()), vec!["U0", "NEW", "USER", "F0", "F1"]);
    assert_eq!(map.get(&0), Some(&1));
    assert_eq!(map.get(&1), Some(&4));
    assert_eq!(map.get(&2), Some(&2));
    let flat = lib.to_flat_list();
    for (k, p) in project.iter().enumerate() {
        assert_eq!(flat[*map.get(&k).unwrap()].inputs, p.inputs);
    }
    // References follow the chips: USER uses NEW and F1; F1 uses F0; U0 uses F0.
    assert_eq!(
        flat[2].components.iter().map(|c| c.component_type).collect::<Vec<_>>(),
        vec![ComponentType::SubChip(1), ComponentType::SubChip(4)]
    );
    assert_eq!(flat[4].components[0].component_type, ComponentType::SubChip(3));
    assert_eq!(flat[0].components[0].component_type, ComponentType::SubChip(4));
}

/// The digest computed the plain way: sizes hashed as integers, kinds and
/// connections hashed as their `Debug` text.
fn debug_text_hash(bp: &ChipBlueprint, index_map: &HashMap<usize, usize>) -> u64 {
    let mut hasher = std::collections::hash_map::DefaultHasher::new();
    bp.inputs.hash(&mut hasher);
    bp.outputs.hash(&mut hasher);
    for comp in &bp.components {
        match comp.component_type {
            ComponentType::SubChip(idx) => {
                let mapped = index_map.get(&idx).cloned().unwrap_or(idx);
                format!("SubChip({})", mapped).hash(&mut hasher);
            }
            other => format!("{:?}", other).hash(&mut hasher),
        }
    }
    for conn in &bp.connections {
        format!("{:?}{:?}", conn.source, conn.target).hash(&mut hasher);
    }
    hasher.finish()
}

#[test]
fn blueprint_hash_is_the_digest_of_the_debug_texts() {
    let mut bp = chip(
        "MIX",
        3,
        vec![ComponentType::Nand, ComponentType::Input, ComponentType::Output, ComponentType::Clock, ComponentType::SubChip(12)],
    );
    bp.connections.push(Connection {
        source: SourcePort::ComponentOutput { component_idx: 4, port_idx: 107 },
        target: TargetPort::ComponentInput { component_idx: 0, port_idx: 1 },
    });
    let empty = HashMap::new();
    assert_eq!(GlobalLibrary::blueprint_hash(&bp, &empty), debug_text_hash(&bp, &empty));
    let mut map = HashMap::new();
    map.insert(12usize, 3usize);
    assert_eq!(GlobalLibrary::blueprint_hash(&bp, &map), debug_text_hash(&bp, &map));
    assert_ne!(GlobalLibrary::blueprint_hash(&bp, &map), GlobalLibrary::blueprint_hash(&bp, &empty));
}
