use vstd::prelude::*;

use crate::canvas::VisualComponent;
use crate::library::models;
use crate::types::{BlueprintModel, ChipBlueprint, Component, ComponentType};

verus! {

/// The tool the editor places with.
#[derive(Clone, Copy, PartialEq, Eq, Debug, Structural)]
pub enum ActiveTool {
    PlaceComponent(ComponentType),
    PlaceAnnotation,
}

/// Where library entry `i` goes when the entry at `from` is moved to `to`.
pub open spec fn moved_index(from: int, to: int, i: int) -> int {
    if i == from {
        to
    } else if from < i && i <= to {
        i - 1
    } else if to <= i && i < from {
        i + 1
    } else {
        i
    }
}

/// A component type with its sub-chip reference renumbered by `map`.
pub open spec fn remapped_type(t: ComponentType, map: Seq<usize>) -> ComponentType {
    match t {
        ComponentType::SubChip(i) => ComponentType::SubChip(map[i as int]),
        other => other,
    }
}

pub open spec fn remapped_components(cs: Seq<Component>, map: Seq<usize>) -> Seq<Component> {
    cs.map_values(|c: Component| Component { component_type: remapped_type(c.component_type, map), ..c })
}

/// A blueprint with its sub-chip references renumbered by `map`.
pub open spec fn remapped_blueprint(b: BlueprintModel, map: Seq<usize>) -> BlueprintModel {
    BlueprintModel { components: remapped_components(b.components, map), ..b }
}

/// Every sub-chip reference of the component types names an entry below `n`.
pub open spec fn refs_below(ts: Seq<ComponentType>, n: nat) -> bool {
    forall|k: int| 0 <= k < ts.len() ==> (#[trigger] ts[k] matches ComponentType::SubChip(i) ==> i < n)
}

pub open spec fn component_types(cs: Seq<Component>) -> Seq<ComponentType> {
    cs.map_values(|c: Component| c.component_type)
}

pub open spec fn canvas_types(cs: Seq<VisualComponent>) -> Seq<ComponentType> {
    cs.map_values(|c: VisualComponent| c.comp_type)
}

/// `new` is the canvas `old` with every sub-chip reference renumbered by
/// `map`; ids, labels and clock periods stay.
pub open spec fn canvas_remapped(old: Seq<VisualComponent>, new: Seq<VisualComponent>, map: Seq<usize>) -> bool {
    &&& new.len() == old.len()
    &&& forall|i: int|
        0 <= i < old.len() ==> {
            &&& (#[trigger] new[i]).comp_type == remapped_type(old[i].comp_type, map)
            &&& new[i].id == old[i].id
            &&& new[i].label@ == old[i].label@
            &&& new[i].clock_period == old[i].clock_period
        }
}

/// Every sub-chip reference in the library names an entry of the library.
pub open spec fn library_refs_in_range(lib: Seq<ChipBlueprint>) -> bool {
    forall|b: int| 0 <= b < lib.len() ==> refs_below(component_types(#[trigger] lib[b].components@), lib.len())
}

pub open spec fn tool_ref_below(tool: Option<ActiveTool>, n: nat) -> bool {
    match tool {
        Some(ActiveTool::PlaceComponent(ComponentType::SubChip(i))) => i < n,
        _ => true,
    }
}

pub open spec fn remapped_tool(tool: Option<ActiveTool>, map: Seq<usize>) -> Option<ActiveTool> {
    match tool {
        Some(ActiveTool::PlaceComponent(t)) => Some(ActiveTool::PlaceComponent(remapped_type(t, map))),
        other => other,
    }
}

/// The renumbering of library entries when the entry at `from` moves to `to`.
pub open spec fn move_map(len: nat, from: int, to: int) -> Seq<usize> {
    Seq::new(len, |i: int| moved_index(from, to, i) as usize)
}

/// The entry at new position `j` came from old position `origin(j)`.
pub open spec fn origin_index(from: int, to: int, j: int) -> int {
    moved_index(to, from, j)
}

/// Moving an entry from `from` to `to` and then from `to` back to `from`
/// puts every entry back at its place.
pub proof fn law_move_back_restores_positions(from: int, to: int, i: int)
    ensures
        moved_index(to, from, moved_index(from, to, i)) == i,
{
}

/// The entry that lands at position `j` is the one that started at
/// `origin_index(from, to, j)`, and positions within range stay in range.
pub proof fn lemma_origin(from: int, to: int, j: int, len: int)
    requires
        0 <= from < len,
        0 <= to < len,
        0 <= j < len,
    ensures
        moved_index(from, to, origin_index(from, to, j)) == j,
        0 <= origin_index(from, to, j) < len,
        0 <= moved_index(from, to, j) < len,
{
}

/// The indices `0, 1, ..., len - 1`.
fn identity_order(len: usize) -> (r: Vec<usize>)
    ensures
        r@.len() == len,
        forall|i: int| 0 <= i < len ==> #[trigger] r@[i] == i,
{
    let mut r: Vec<usize> = Vec::new();
    let mut i: usize = 0;
    while i < len
        invariant
            i <= len,
            r@.len() == i,
            forall|j: int| 0 <= j < i ==> #[trigger] r@[j] == j,
        decreases len - i,
    {
        r.push(i);
        i += 1;
    }
    r
}

/// The canvas with every sub-chip reference renumbered by `map`.
fn remap_canvas(cs: &mut Vec<VisualComponent>, map: &Vec<usize>)
    requires
        refs_below(canvas_types(old(cs)@), map@.len()),
    ensures
        canvas_remapped(old(cs)@, final(cs)@, map@),
{
    let ghost orig = cs@;
    let n = cs.len();
    let mut k: usize = 0;
    while k < n
        invariant
            n == cs@.len(),
            n == orig.len(),
            k <= n,
            refs_below(canvas_types(orig), map@.len()),
            forall|j: int|
                0 <= j < k ==> {
                    &&& (#[trigger] cs@[j]).comp_type == remapped_type(orig[j].comp_type, map@)
                    &&& cs@[j].id == orig[j].id
                    &&& cs@[j].label@ == orig[j].label@
                    &&& cs@[j].clock_period == orig[j].clock_period
                },
            forall|j: int| k <= j < n ==> #[trigger] cs@[j] == orig[j],
        decreases n - k,
    {
        if let ComponentType::SubChip(idx) = cs[k].comp_type {
            proof {
                assert(canvas_types(orig)[k as int] == orig[k as int].comp_type);
            }
            let c = VisualComponent {
                id: cs[k].id,
                comp_type: ComponentType::SubChip(map[idx]),
                label: cs[k].label.clone(),
                clock_period: cs[k].clock_period,
            };
            cs.set(k, c);
        }
        k += 1;
    }
}

/// The components with every sub-chip reference renumbered by `map`.
fn remap_components(cs: &mut Vec<Component>, map: &Vec<usize>)
    requires
        refs_below(component_types(old(cs)@), map@.len()),
    ensures
        final(cs)@ == remapped_components(old(cs)@, map@),
{
    let ghost orig = cs@;
    let n = cs.len();
    let mut k: usize = 0;
    while k < n
        invariant
            n == cs@.len(),
            n == orig.len(),
            k <= n,
            refs_below(component_types(orig), map@.len()),
            forall|j: int| 0 <= j < k ==> #[trigger] cs@[j] == (Component {
                component_type: remapped_type(orig[j].component_type, map@),
                ..orig[j]
            }),
            forall|j: int| k <= j < n ==> #[trigger] cs@[j] == orig[j],
        decreases n - k,
    {
        let comp = cs[k];
        if let ComponentType::SubChip(idx) = comp.component_type {
            proof {
                assert(component_types(orig)[k as int] == orig[k as int].component_type);
            }
            cs.set(k, Component { component_type: ComponentType::SubChip(map[idx]), clock_period: comp.clock_period });
        }
        k += 1;
    }
    assert(cs@ =~= remapped_components(orig, map@));
}

/// Moves library entry `from` to position `to` and renumbers every sub-chip
/// reference (in the library, on the canvas and in the selected tool) to
/// follow the entries to their new positions. Does nothing when `from ==
/// to` or either index is out of range.
pub fn remap_library_chip(
    library: &mut Vec<ChipBlueprint>,
    canvas: &mut Vec<VisualComponent>,
    selected_tool: &mut Option<ActiveTool>,
    from: usize,
    to: usize,
)
    requires
        from != to && from < old(library)@.len() && to < old(library)@.len() ==> {
            &&& library_refs_in_range(old(library)@)
            &&& refs_below(canvas_types(old(canvas)@), old(library)@.len())
            &&& tool_ref_below(*old(selected_tool), old(library)@.len())
        },
    ensures
        from == to || from >= old(library)@.len() || to >= old(library)@.len() ==> {
            &&& final(library)@ == old(library)@
            &&& final(canvas)@ == old(canvas)@
            &&& *final(selected_tool) == *old(selected_tool)
        },
        from != to && from < old(library)@.len() && to < old(library)@.len() ==> {
            let map = move_map(old(library)@.len(), from as int, to as int);
            &&& final(library)@.len() == old(library)@.len()
            &&& forall|j: int|
                0 <= j < old(library)@.len() ==> (#[trigger] final(library)@[j])@ == remapped_blueprint(
                    old(library)@[origin_index(from as int, to as int, j)]@,
                    map,
                )
            &&& canvas_remapped(old(canvas)@, final(canvas)@, map)
            &&& models(final(library)@) == reordered(models(old(library)@), from as int, to as int)
            &&& *final(selected_tool) == remapped_tool(*old(selected_tool), map)
            // Every reference still names an entry, so the move can be undone
            // by moving back.
            &&& library_refs_in_range(final(library)@)
            &&& refs_below(canvas_types(final(canvas)@), final(library)@.len())
            &&& tool_ref_below(*final(selected_tool), final(library)@.len())
        },
{
    let len = library.len();
    if from == to || from >= len || to >= len {
        return;
    }
    let ghost orig = library@;
    let ghost fr = from as int;
    let ghost tt = to as int;
    let mut new_order = identity_order(len);
    let item = new_order.remove(from);
    new_order.insert(to, item);
    proof {
        assert forall|j: int| 0 <= j < len implies #[trigger] new_order@[j] == origin_index(fr, tt, j) by {}
    }
    let mut map: Vec<usize> = Vec::new();
    let mut i: usize = 0;
    while i < len
        invariant
            i <= len,
            map@.len() == i,
            forall|j: int| 0 <= j < i ==> #[trigger] map@[j] == 0,
        decreases len - i,
    {
        map.push(0);
        i += 1;
    }
    let mut new_idx: usize = 0;
    while new_idx < len
        invariant
            len == orig.len(),
            fr == from as int,
            tt == to as int,
            fr < len,
            tt < len,
            fr != tt,
            new_order@.len() == len,
            forall|j: int| 0 <= j < len ==> #[trigger] new_order@[j] == origin_index(fr, tt, j),
            map@.len() == len,
            new_idx <= len,
            forall|j: int| 0 <= j < new_idx ==> map@[#[trigger] origin_index(fr, tt, j)] == j,
        decreases len - new_idx,
    {
        let old_idx = new_order[new_idx];
        proof {
            lemma_origin(fr, tt, new_idx as int, len as int);
            assert forall|j: int| 0 <= j < new_idx implies origin_index(fr, tt, j) != old_idx by {
                lemma_origin(fr, tt, j, len as int);
            }
        }
        map.set(old_idx, new_idx);
        new_idx += 1;
    }
    proof {
        assert forall|j: int| 0 <= j < len implies #[trigger] map@[j] == move_map(len as nat, fr, tt)[j] by {
            lemma_origin(fr, tt, j, len as int);
            let k = moved_index(fr, tt, j);
            assert(origin_index(fr, tt, k) == j);
        }
        assert(map@ =~= move_map(len as nat, fr, tt));
    }
    let mut new_library: Vec<ChipBlueprint> = Vec::new();
    let mut k: usize = 0;
    while k < len
        invariant
            len == orig.len(),
            orig == library@,
            new_order@.len() == len,
            forall|j: int| 0 <= j < len ==> #[trigger] new_order@[j] == origin_index(fr, tt, j),
            fr == from as int,
            tt == to as int,
            fr < len,
            tt < len,
            k <= len,
            new_library@.len() == k,
            forall|j: int| 0 <= j < k ==> (#[trigger] new_library@[j])@ == orig[origin_index(fr, tt, j)]@,
        decreases len - k,
    {
        proof {
            lemma_origin(fr, tt, k as int, len as int);
        }
        new_library.push(library[new_order[k]].clone());
        k += 1;
    }
    *library = new_library;
    remap_canvas(canvas, &map);
    if let Some(ActiveTool::PlaceComponent(ComponentType::SubChip(idx))) = *selected_tool {
        *selected_tool = Some(ActiveTool::PlaceComponent(ComponentType::SubChip(map[idx])));
    }
    let mut b: usize = 0;
    while b < len
        invariant
            len == orig.len(),
            library@.len() == len,
            map@ == move_map(len as nat, fr, tt),
            library_refs_in_range(orig),
            fr == from as int,
            tt == to as int,
            fr < len,
            tt < len,
            b <= len,
            forall|j: int| 0 <= j < b ==> (#[trigger] library@[j])@ == remapped_blueprint(
                orig[origin_index(fr, tt, j)]@,
                map@,
            ),
            forall|j: int| b <= j < len ==> (#[trigger] library@[j])@ == orig[origin_index(fr, tt, j)]@,
        decreases len - b,
    {
        proof {
            lemma_origin(fr, tt, b as int, len as int);
            let o = origin_index(fr, tt, b as int);
            assert(refs_below(component_types(orig[o].components@), len as nat));
            assert(library@[b as int].components@ == orig[o].components@);
        }
        remap_components(&mut library[b].components, &map);
        b += 1;
    }
    proof {
        assert(models(library@) =~= reordered(models(orig), fr, tt));
        let mm = move_map(len as nat, fr, tt);
        assert forall|j: int| 0 <= j < len implies refs_below(component_types(#[trigger] library@[j].components@), len as nat) by {
            lemma_origin(fr, tt, j, len as int);
            let ob = orig[origin_index(fr, tt, j)];
            assert(refs_below(component_types(ob.components@), len as nat));
            assert forall|k: int| 0 <= k < component_types(library@[j].components@).len() implies (#[trigger] component_types(library@[j].components@)[k] matches ComponentType::SubChip(i) ==> i < len) by {
                let t = ob.components@[k].component_type;
                assert(component_types(ob.components@)[k] == t);
                lemma_type_round_trip(t, len as nat, fr, tt);
                assert(library@[j]@.components[k].component_type == remapped_type(t, mm));
            }
        }
        assert forall|k: int| 0 <= k < canvas_types(canvas@).len() implies (#[trigger] canvas_types(canvas@)[k] matches ComponentType::SubChip(i) ==> i < len) by {
            let t = canvas_types(old(canvas)@)[k];
            lemma_type_round_trip(t, len as nat, fr, tt);
        }
        if let Some(ActiveTool::PlaceComponent(t)) = *old(selected_tool) {
            lemma_type_round_trip(t, len as nat, fr, tt);
        }
    }
}


/// The library after the entry at `from` moves to `to`, every sub-chip
/// reference renumbered to follow the entries.
pub open spec fn reordered(lib: Seq<BlueprintModel>, from: int, to: int) -> Seq<BlueprintModel> {
    Seq::new(
        lib.len(),
        |j: int| remapped_blueprint(lib[origin_index(from, to, j)], move_map(lib.len(), from, to)),
    )
}

/// Every sub-chip reference of the blueprints names an entry below `n`.
pub open spec fn model_refs_below(lib: Seq<BlueprintModel>, n: nat) -> bool {
    forall|b: int| 0 <= b < lib.len() ==> refs_below(component_types(#[trigger] lib[b].components), n)
}

/// Renumbering by a move and then by the move back gives every reference
/// below the library size back.
proof fn lemma_type_round_trip(t: ComponentType, len: nat, from: int, to: int)
    requires
        0 <= from < len,
        0 <= to < len,
        len <= usize::MAX,
        t matches ComponentType::SubChip(i) ==> i < len,
    ensures
        remapped_type(remapped_type(t, move_map(len, from, to)), move_map(len, to, from)) == t,
        remapped_type(t, move_map(len, from, to)) matches ComponentType::SubChip(i) ==> i < len,
{
    if let ComponentType::SubChip(i) = t {
        lemma_origin(from, to, i as int, len as int);
        law_move_back_restores_positions(from, to, i as int);
        let j = moved_index(from, to, i as int);
        assert(move_map(len, from, to)[i as int] == j as usize);
        assert(0 <= j < len);
        lemma_origin(to, from, j, len as int);
        assert(move_map(len, to, from)[j] == moved_index(to, from, j) as usize);
        assert(moved_index(to, from, j) == i);
    }
}

/// Moving a library entry from `from` to `to` and then back from `to` to
/// `from` restores the library, the canvas and the selected tool: every
/// entry returns to its place and every sub-chip reference to its value.
pub proof fn law_reorder_round_trip(
    lib: Seq<BlueprintModel>,
    c0: Seq<VisualComponent>,
    c1: Seq<VisualComponent>,
    c2: Seq<VisualComponent>,
    tool: Option<ActiveTool>,
    from: int,
    to: int,
)
    requires
        0 <= from < lib.len(),
        0 <= to < lib.len(),
        lib.len() <= usize::MAX,
        model_refs_below(lib, lib.len()),
        refs_below(canvas_types(c0), lib.len()),
        tool_ref_below(tool, lib.len()),
        canvas_remapped(c0, c1, move_map(lib.len(), from, to)),
        canvas_remapped(c1, c2, move_map(lib.len(), to, from)),
    ensures
        reordered(reordered(lib, from, to), to, from) == lib,
        forall|i: int|
            0 <= i < c0.len() ==> (#[trigger] c2[i]).comp_type == c0[i].comp_type && c2[i].id == c0[i].id
                && c2[i].label@ == c0[i].label@ && c2[i].clock_period == c0[i].clock_period,
        c2.len() == c0.len(),
        remapped_tool(remapped_tool(tool, move_map(lib.len(), from, to)), move_map(lib.len(), to, from)) == tool,
{
    let len = lib.len();
    let m1 = move_map(len, from, to);
    let m2 = move_map(len, to, from);
    let l1 = reordered(lib, from, to);
    let l2 = reordered(l1, to, from);
    assert forall|j: int| 0 <= j < len implies #[trigger] l2[j] == lib[j] by {
        let o = origin_index(to, from, j);
        lemma_origin(to, from, j, len as int);
        law_move_back_restores_positions(to, from, j);
        assert(origin_index(from, to, o) == j);
        let b = lib[j];
        assert(refs_below(component_types(b.components), len));
        let cs = remapped_components(remapped_components(b.components, m1), m2);
        assert forall|c: int| 0 <= c < b.components.len() implies #[trigger] cs[c] == b.components[c] by {
            assert(component_types(b.components)[c] == b.components[c].component_type);
            lemma_type_round_trip(b.components[c].component_type, len, from, to);
        }
        assert(cs =~= b.components);
        assert(l2[j] == remapped_blueprint(remapped_blueprint(b, m1), m2));
    }
    assert(l2 =~= lib);
    assert forall|i: int| 0 <= i < c0.len() implies (#[trigger] c2[i]).comp_type == c0[i].comp_type by {
        assert(canvas_types(c0)[i] == c0[i].comp_type);
        lemma_type_round_trip(c0[i].comp_type, len, from, to);
    }
    if let Some(ActiveTool::PlaceComponent(t)) = tool {
        lemma_type_round_trip(t, len, from, to);
    }
}

} // verus!
