use logic_simulator::history::{HistoryManager, Selection};

#[test]
fn undo_and_redo_walk_the_history() {
    let mut h: HistoryManager<i32> = HistoryManager::default();
    assert_eq!(h.max_steps, 50);
    let mut state = 0;
    // Two actions: 0 -> 1 -> 2.
    h.push_history_snapshot(state);
    state = 1;
    h.push_history_snapshot(state);
    state = 2;
    state = h.undo(state, &mut Selection::new());
    assert_eq!(state, 1);
    state = h.undo(state, &mut Selection::new());
    assert_eq!(state, 0);
    // Nothing more to undo.
    state = h.undo(state, &mut Selection::new());
    assert_eq!(state, 0);
    state = h.redo(state, &mut Selection::new());
    assert_eq!(state, 1);
    state = h.redo(state, &mut Selection::new());
    assert_eq!(state, 2);
    // Nothing more to redo.
    state = h.redo(state, &mut Selection::new());
    assert_eq!(state, 2);
}

#[test]
fn a_new_action_drops_the_redo_stack() {
    let mut h: HistoryManager<String> = HistoryManager::default();
    h.push_history_snapshot("a".to_string());
    let s = h.undo("b".to_string(), &mut Selection::new());
    assert_eq!(s, "a");
    assert_eq!(h.redo_stack.len(), 1);
    h.push_history_snapshot("a".to_string());
    assert!(h.redo_stack.is_empty());
    let s = h.redo("c".to_string(), &mut Selection::new());
    assert_eq!(s, "c");
}

#[test]
fn the_oldest_snapshot_falls_off() {
    let mut h: HistoryManager<i32> = HistoryManager::default();
    h.max_steps = 3;
    for s in 0..5 {
        h.push_history_snapshot(s);
    }
    assert_eq!(h.undo_stack.len(), 3);
    let mut state = 5;
    state = h.undo(state, &mut Selection::new());
    assert_eq!(state, 4);
    state = h.undo(state, &mut Selection::new());
    assert_eq!(state, 3);
    state = h.undo(state, &mut Selection::new());
    assert_eq!(state, 2);
    state = h.undo(state, &mut Selection::new());
    assert_eq!(state, 2);
}

#[test]
fn zero_steps_keeps_no_history() {
    let mut h: HistoryManager<i32> = HistoryManager::default();
    h.max_steps = 0;
    h.push_history_snapshot(7);
    assert!(h.undo_stack.is_empty());
    assert_eq!(h.undo(8, &mut Selection::new()), 8);
}

#[test]
fn undo_drops_the_selection_only_when_it_steps_back() {
    let mut h: HistoryManager<i32> = HistoryManager::default();
    let mut sel = Selection::new();
    sel.selected_comp_id = Some(4);
    sel.selected_comp_ids.push(4);
    sel.active_wire_drag = Some((4, 0, false));
    // Nothing to undo: the selection stays.
    assert_eq!(h.undo(1, &mut sel), 1);
    assert_eq!(sel.selected_comp_id, Some(4));
    assert_eq!(sel.selected_comp_ids, vec![4]);
    h.push_history_snapshot(0);
    assert_eq!(h.undo(1, &mut sel), 0);
    assert_eq!(sel.selected_comp_id, None);
    assert!(sel.selected_comp_ids.is_empty());
    assert_eq!(sel.active_wire_drag, None);
    sel.dragging_comp_id = Some(2);
    assert_eq!(h.redo(0, &mut sel), 1);
    assert_eq!(sel.dragging_comp_id, None);
}
