use std::collections::VecDeque;
use vstd::prelude::*;

use crate::canvas::VisualConnection;

verus! {

/// Undo and redo over states of type `S` (snapshots of the canvas in the
/// editor). The undo stack holds the states before the latest actions,
/// oldest first, and keeps at most `max_steps` of them when an action is
/// recorded; the redo stack holds the states that undo stepped away from,
/// most recent last.
pub struct HistoryManager<S> {
    pub undo_stack: VecDeque<S>,
    pub redo_stack: Vec<S>,
    pub max_steps: usize,
}

/// The content of a history as sequences.
pub struct HistoryModel<S> {
    pub undo: Seq<S>,
    pub redo: Seq<S>,
    pub max_steps: usize,
}

impl<S> View for HistoryManager<S> {
    type V = HistoryModel<S>;

    open spec fn view(&self) -> HistoryModel<S> {
        HistoryModel { undo: self.undo_stack@, redo: self.redo_stack@, max_steps: self.max_steps }
    }
}

/// The history after recording `s` before an action: `s` goes on top of
/// the undo stack, the oldest state falls off when the stack would exceed
/// `max_steps`, and the redo stack is emptied.
pub open spec fn pushed<S>(h: HistoryModel<S>, s: S) -> HistoryModel<S> {
    let u = h.undo.push(s);
    HistoryModel {
        undo: if u.len() > h.max_steps {
            u.drop_first()
        } else {
            u
        },
        redo: Seq::empty(),
        max_steps: h.max_steps,
    }
}

/// Undo from state `current`: the top of the undo stack becomes the state
/// and `current` goes on the redo stack; with nothing to undo, nothing
/// changes.
pub open spec fn undone<S>(h: HistoryModel<S>, current: S) -> (HistoryModel<S>, S) {
    if h.undo.len() > 0 {
        (HistoryModel { undo: h.undo.drop_last(), redo: h.redo.push(current), max_steps: h.max_steps }, h.undo.last())
    } else {
        (h, current)
    }
}

/// Redo from state `current`: the top of the redo stack becomes the state
/// and `current` goes back on the undo stack; with nothing to redo, nothing
/// changes.
pub open spec fn redone<S>(h: HistoryModel<S>, current: S) -> (HistoryModel<S>, S) {
    if h.redo.len() > 0 {
        (HistoryModel { undo: h.undo.push(current), redo: h.redo.drop_last(), max_steps: h.max_steps }, h.redo.last())
    } else {
        (h, current)
    }
}

/// What the canvas has selected, and what it is in the middle of dragging.
pub struct Selection {
    pub selected_comp_id: Option<usize>,
    pub selected_comp_ids: Vec<usize>,
    pub selected_connections: Vec<VisualConnection>,
    pub active_wire_drag: Option<(usize, usize, bool)>,
    pub dragging_comp_id: Option<usize>,
    pub dragging_annotation_idx: Option<usize>,
    pub selected_annotation_idx: Option<usize>,
}

impl Selection {
    /// Nothing is selected and nothing is being dragged.
    pub open spec fn is_clear(&self) -> bool {
        &&& self.selected_comp_id is None
        &&& self.selected_comp_ids@.len() == 0
        &&& self.selected_connections@.len() == 0
        &&& self.active_wire_drag is None
        &&& self.dragging_comp_id is None
        &&& self.dragging_annotation_idx is None
        &&& self.selected_annotation_idx is None
    }

    /// An empty selection.
    pub fn new() -> (s: Self)
        ensures
            s.is_clear(),
    {
        Selection {
            selected_comp_id: None,
            selected_comp_ids: Vec::new(),
            selected_connections: Vec::new(),
            active_wire_drag: None,
            dragging_comp_id: None,
            dragging_annotation_idx: None,
            selected_annotation_idx: None,
        }
    }

    /// Drops the selection and any drag in progress.
    pub fn clear(&mut self)
        ensures
            final(self).is_clear(),
    {
        *self = Selection::new();
    }
}

impl<S> Default for HistoryManager<S> {
    fn default() -> (h: Self)
        ensures
            h@ == (HistoryModel::<S> { undo: Seq::empty(), redo: Seq::empty(), max_steps: 50 }),
    {
        HistoryManager { undo_stack: VecDeque::new(), redo_stack: Vec::new(), max_steps: 50 }
    }
}

impl<S> HistoryManager<S> {
    /// Records `snapshot`, the state before an action, for undo. A new
    /// action invalidates everything that could be redone.
    pub fn push_history_snapshot(&mut self, snapshot: S)
        ensures
            final(self)@ == pushed(old(self)@, snapshot),
    {
        self.undo_stack.push_back(snapshot);
        if self.undo_stack.len() > self.max_steps {
            let _ = self.undo_stack.pop_front();
        }
        self.redo_stack.clear();
    }

    /// Steps back from state `current`; returns the state to show. When a
    /// state is brought back, the selection and any drag in progress are
    /// dropped; with nothing to undo, nothing changes.
    pub fn undo(&mut self, current: S, selection: &mut Selection) -> (r: S)
        ensures
            (final(self)@, r) == undone(old(self)@, current),
            old(self)@.undo.len() > 0 ==> final(selection).is_clear(),
            old(self)@.undo.len() == 0 ==> *final(selection) == *old(selection),
    {
        match self.undo_stack.pop_back() {
            Some(prev_state) => {
                self.redo_stack.push(current);
                selection.clear();
                prev_state
            },
            None => current,
        }
    }

    /// Steps forward again from state `current`; returns the state to show.
    /// When a state is brought back, the selection and any drag in progress
    /// are dropped; with nothing to redo, nothing changes.
    pub fn redo(&mut self, current: S, selection: &mut Selection) -> (r: S)
        ensures
            (final(self)@, r) == redone(old(self)@, current),
            old(self)@.redo.len() > 0 ==> final(selection).is_clear(),
            old(self)@.redo.len() == 0 ==> *final(selection) == *old(selection),
    {
        match self.redo_stack.pop() {
            Some(next_state) => {
                self.undo_stack.push_back(current);
                selection.clear();
                next_state
            },
            None => current,
        }
    }
}

/// Redo takes back an undo: the history and the state are as before.
pub proof fn law_redo_reverses_undo<S>(h: HistoryModel<S>, current: S)
    requires
        h.undo.len() > 0,
    ensures
        redone(undone(h, current).0, undone(h, current).1) == (h, current),
{
    let (h1, s1) = undone(h, current);
    assert(h1.undo.push(s1) =~= h.undo);
    assert(h1.redo.drop_last() =~= h.redo);
}

/// Undo takes back a redo: the history and the state are as before.
pub proof fn law_undo_reverses_redo<S>(h: HistoryModel<S>, current: S)
    requires
        h.redo.len() > 0,
    ensures
        undone(redone(h, current).0, redone(h, current).1) == (h, current),
{
    let (h1, s1) = redone(h, current);
    assert(h1.redo.push(s1) =~= h.redo);
    assert(h1.undo.drop_last() =~= h.undo);
}

/// Undo right after recording a snapshot brings back that snapshot, and the
/// state it leaves is the only one that can be redone.
pub proof fn law_undo_returns_last_snapshot<S>(h: HistoryModel<S>, snapshot: S, current: S)
    requires
        h.max_steps >= 1,
    ensures
        undone(pushed(h, snapshot), current).1 == snapshot,
        undone(pushed(h, snapshot), current).0.redo == seq![current],
{
    let p = pushed(h, snapshot);
    assert(p.undo.len() > 0);
    assert(p.undo.last() == snapshot);
    assert(Seq::<S>::empty().push(current) =~= seq![current]);
}

/// A history that holds no more than `max_steps` states in its two stacks
/// keeps that bound through recording, undo and redo; in particular the
/// undo stack never holds more than `max_steps` states.
pub proof fn law_history_stays_bounded<S>(h: HistoryModel<S>, s: S, current: S)
    requires
        h.undo.len() + h.redo.len() <= h.max_steps,
    ensures
        pushed(h, s).undo.len() + pushed(h, s).redo.len() <= h.max_steps,
        undone(h, current).0.undo.len() + undone(h, current).0.redo.len() <= h.max_steps,
        redone(h, current).0.undo.len() + redone(h, current).0.redo.len() <= h.max_steps,
        pushed(h, s).max_steps == h.max_steps,
        undone(h, current).0.max_steps == h.max_steps,
        redone(h, current).0.max_steps == h.max_steps,
{
}

} // verus!
