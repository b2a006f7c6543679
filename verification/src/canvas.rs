use vstd::prelude::*;
use vstd::string::StrSliceExecFns;

use std::collections::HashMap;

use crate::engine::EngineState;
use crate::library_import::mapped_type;
use crate::text::{suffixed, suffixed_name};
use crate::types::{BlueprintModel, ChipBlueprint, Component, ComponentType, Connection, SourcePort, TargetPort};

verus! {

/// What the logic reads of a component placed on the canvas: its id, its
/// kind, its label and, for a clock, its period. (Its position and size on
/// screen are presentation data.)
#[derive(Debug, Clone)]
pub struct VisualComponent {
    pub id: usize,
    pub comp_type: ComponentType,
    pub label: String,
    pub clock_period: Option<usize>,
}

/// A wire on the canvas, from an output port of one component to an input
/// port of another.
#[derive(Debug, Clone, Copy, PartialEq, Eq, Structural, Hash)]
pub struct VisualConnection {
    pub src_comp_id: usize,
    pub src_port: usize,
    pub tgt_comp_id: usize,
    pub tgt_port: usize,
}


/// The screens of the application.
#[derive(Debug, Clone, Copy, PartialEq, Eq, Structural)]
pub enum AppMode {
    MainMenu,
    Editor,
    ManageChips,
    GlobalLibraryManager,
    Credits,
}

/// What the canvas is editing: the main circuit, or a chip of the library
/// that was unpacked onto it.
#[derive(Debug, Clone, Copy, PartialEq, Eq, Structural)]
pub enum EditingTarget {
    MainCanvas,
    LibraryChip(usize),
}

// ---------------------------------------------------------------------------
// Ports and labels of components
// ---------------------------------------------------------------------------

/// The number of (input, output) ports of a component: a sub-chip has the
/// ports of its blueprint, or none when the library has no such blueprint.
pub open spec fn port_counts(lib: Seq<ChipBlueprint>, t: ComponentType) -> (usize, usize) {
    match t {
        ComponentType::Nand => (2, 1),
        ComponentType::Input => (0, 1),
        ComponentType::Output => (1, 0),
        ComponentType::Clock => (0, 1),
        ComponentType::SubChip(i) => if i < lib.len() {
            (lib[i as int].inputs, lib[i as int].outputs)
        } else {
            (0, 0)
        },
    }
}

/// The label shown on a component: the kind of a primitive, the name of a
/// sub-chip's blueprint, or `UNKNOWN` when the library has no such blueprint.
pub open spec fn component_label(lib: Seq<ChipBlueprint>, t: ComponentType) -> Seq<char> {
    match t {
        ComponentType::Nand => "NAND"@,
        ComponentType::Input => "IN"@,
        ComponentType::Output => "OUT"@,
        ComponentType::Clock => "CLK"@,
        ComponentType::SubChip(i) => if i < lib.len() {
            lib[i as int].name@
        } else {
            "UNKNOWN"@
        },
    }
}

impl EngineState {
    /// The number of (input, output) ports of a component of this kind.
    pub fn get_component_ports_count(&self, comp_type: ComponentType) -> (r: (usize, usize))
        ensures
            r == port_counts(self.library@, comp_type),
    {
        match comp_type {
            ComponentType::Nand => (2, 1),
            ComponentType::Input => (0, 1),
            ComponentType::Output => (1, 0),
            ComponentType::Clock => (0, 1),
            ComponentType::SubChip(idx) => {
                if idx < self.library.len() {
                    (self.library[idx].inputs, self.library[idx].outputs)
                } else {
                    (0, 0)
                }
            },
        }
    }

    /// The label shown on a component of this kind.
    pub fn get_component_label(&self, comp_type: ComponentType) -> (r: String)
        ensures
            r@ == component_label(self.library@, comp_type),
    {
        proof {
            reveal_strlit("NAND");
            reveal_strlit("IN");
            reveal_strlit("OUT");
            reveal_strlit("CLK");
            reveal_strlit("UNKNOWN");
        }
        match comp_type {
            ComponentType::Nand => "NAND".to_owned(),
            ComponentType::Input => "IN".to_owned(),
            ComponentType::Output => "OUT".to_owned(),
            ComponentType::Clock => "CLK".to_owned(),
            ComponentType::SubChip(idx) => {
                if idx < self.library.len() {
                    self.library[idx].name.clone()
                } else {
                    "UNKNOWN".to_owned()
                }
            },
        }
    }
}

// ---------------------------------------------------------------------------
// Packaging the canvas into a blueprint
// ---------------------------------------------------------------------------

/// Whether `c` has Unicode's White_Space property, which is what
/// `char::is_whitespace` tests and what `str::trim` removes.
pub open spec fn is_white_space(c: char) -> bool {
    let v = c as u32;
    ||| 9 <= v <= 13
    ||| v == 32
    ||| v == 0x85
    ||| v == 0xa0
    ||| v == 0x1680
    ||| 0x2000 <= v <= 0x200a
    ||| v == 0x2028
    ||| v == 0x2029
    ||| v == 0x202f
    ||| v == 0x205f
    ||| v == 0x3000
}

/// A label with nothing but white space.
pub open spec fn is_blank(s: Seq<char>) -> bool {
    forall|i: int| 0 <= i < s.len() ==> is_white_space(s[i])
}

/// The label a pin starts from: its own, unless it is the default label or
/// blank, in which case the default label numbered by the pin's position.
pub open spec fn base_label(label: Seq<char>, default: Seq<char>, p: nat) -> Seq<char> {
    if label == default || is_blank(label) {
        suffixed(default, p)
    } else {
        label
    }
}

/// How often `x` occurs in `s`.
pub open spec fn count_in(s: Seq<Seq<char>>, x: Seq<char>) -> nat
    decreases s.len(),
{
    if s.len() == 0 {
        0
    } else {
        count_in(s.drop_last(), x) + if s.last() == x {
            1nat
        } else {
            0nat
        }
    }
}

pub open spec fn pin_bases(pins: Seq<VisualComponent>, default: Seq<char>) -> Seq<Seq<char>> {
    Seq::new(pins.len(), |p: int| base_label(pins[p].label@, default, p as nat))
}

/// The port names of a chip whose pins, in order, are `pins`: each pin's
/// base label, with the number of earlier pins of the same base label as a
/// suffix when there are any.
pub open spec fn pin_names(pins: Seq<VisualComponent>, default: Seq<char>) -> Seq<Seq<char>> {
    let b = pin_bases(pins, default);
    Seq::new(
        pins.len(),
        |p: int|
            if count_in(b.take(p), b[p]) == 0 {
                b[p]
            } else {
                suffixed(b[p], count_in(b.take(p), b[p]))
            },
    )
}

pub open spec fn is_pin(t: ComponentType) -> bool {
    t == ComponentType::Input || t == ComponentType::Output
}

/// The components of the canvas that become components of the chip: all
/// but its inputs and outputs, in canvas order.
pub open spec fn internals(canvas: Seq<VisualComponent>) -> Seq<VisualComponent>
    decreases canvas.len(),
{
    if canvas.len() == 0 {
        Seq::empty()
    } else if !is_pin(canvas.last().comp_type) {
        internals(canvas.drop_last()).push(canvas.last())
    } else {
        internals(canvas.drop_last())
    }
}

pub open spec fn as_component(c: VisualComponent) -> Component {
    Component { component_type: c.comp_type, clock_period: c.clock_period }
}

/// The position of the first entry of `s` with id `id`.
pub open spec fn first_pos(s: Seq<VisualComponent>, id: usize) -> Option<nat>
    decreases s.len(),
{
    if s.len() == 0 {
        None
    } else {
        match first_pos(s.drop_last(), id) {
            Some(p) => Some(p),
            None => if s.last().id == id {
                Some((s.len() - 1) as nat)
            } else {
                None
            },
        }
    }
}

/// The position of the last entry of `s` with id `id`.
pub open spec fn last_pos(s: Seq<VisualComponent>, id: usize) -> Option<nat>
    decreases s.len(),
{
    if s.len() == 0 {
        None
    } else if s.last().id == id {
        Some((s.len() - 1) as nat)
    } else {
        last_pos(s.drop_last(), id)
    }
}

/// Where a wire takes its signal from inside the chip: a chip input when it
/// leaves an input pin, else the output of the internal component with its
/// source id.
pub open spec fn packed_source(ins: Seq<VisualComponent>, ints: Seq<VisualComponent>, w: VisualConnection) -> Option<SourcePort> {
    match first_pos(ins, w.src_comp_id) {
        Some(p) => Some(SourcePort::ChipInput(p as usize)),
        None => match last_pos(ints, w.src_comp_id) {
            Some(c) => Some(SourcePort::ComponentOutput { component_idx: c as usize, port_idx: w.src_port }),
            None => None,
        },
    }
}

/// Where a wire delivers its signal inside the chip: a chip output when it
/// enters an output pin, else the input of the internal component with its
/// target id.
pub open spec fn packed_target(outs: Seq<VisualComponent>, ints: Seq<VisualComponent>, w: VisualConnection) -> Option<TargetPort> {
    match first_pos(outs, w.tgt_comp_id) {
        Some(p) => Some(TargetPort::ChipOutput(p as usize)),
        None => match last_pos(ints, w.tgt_comp_id) {
            Some(c) => Some(TargetPort::ComponentInput { component_idx: c as usize, port_idx: w.tgt_port }),
            None => None,
        },
    }
}

/// The connections of the chip: the wires whose two ends are found, in
/// canvas order.
pub open spec fn packed_connections(
    ins: Seq<VisualComponent>,
    outs: Seq<VisualComponent>,
    ints: Seq<VisualComponent>,
    wires: Seq<VisualConnection>,
) -> Seq<Connection>
    decreases wires.len(),
{
    if wires.len() == 0 {
        Seq::empty()
    } else {
        let prev = packed_connections(ins, outs, ints, wires.drop_last());
        match (packed_source(ins, ints, wires.last()), packed_target(outs, ints, wires.last())) {
            (Some(s), Some(t)) => prev.push(Connection { source: s, target: t }),
            _ => prev,
        }
    }
}

/// The chip that the canvas packages into, with inputs `ins` and outputs
/// `outs` in pin order; none when it would have neither components nor
/// connections.
pub open spec fn packed_blueprint(
    name: Seq<char>,
    canvas: Seq<VisualComponent>,
    wires: Seq<VisualConnection>,
    ins: Seq<VisualComponent>,
    outs: Seq<VisualComponent>,
) -> Option<BlueprintModel> {
    let ints = internals(canvas);
    let comps = ints.map_values(|c: VisualComponent| as_component(c));
    let conns = packed_connections(ins, outs, ints, wires);
    if comps.len() == 0 && conns.len() == 0 {
        None
    } else {
        Some(
            BlueprintModel {
                name,
                inputs: ins.len() as usize,
                outputs: outs.len() as usize,
                input_names: pin_names(ins, "IN"@),
                output_names: pin_names(outs, "OUT"@),
                components: comps,
                connections: conns,
            },
        )
    }
}

/// `char::is_whitespace`, written out from the White_Space list.
fn white_space(c: char) -> (r: bool)
    ensures
        r == is_white_space(c),
{
    let v = c as u32;
    (9 <= v && v <= 13) || v == 32 || v == 0x85 || v == 0xa0 || v == 0x1680 || (0x2000 <= v && v
        <= 0x200a) || v == 0x2028 || v == 0x2029 || v == 0x202f || v == 0x205f || v == 0x3000
}

/// Whether a label holds nothing but white space (`label.trim().is_empty()`).
fn blank(s: &String) -> (r: bool)
    ensures
        r == is_blank(s@),
{
    let t = s.as_str();
    let n = t.unicode_len();
    let mut i: usize = 0;
    while i < n
        invariant
            n == t@.len(),
            t@ == s@,
            i <= n,
            forall|j: int| 0 <= j < i ==> is_white_space(t@[j]),
        decreases n - i,
    {
        let c = t.get_char(i);
        if !white_space(c) {
            return false;
        }
        i += 1;
    }
    true
}

/// How often `x` occurs in `v`.
fn count_strings(v: &Vec<String>, x: &String) -> (r: usize)
    ensures
        r == count_in(v@.map_values(|s: String| s@), x@),
{
    let ghost vs = v@.map_values(|s: String| s@);
    let n = v.len();
    let mut c: usize = 0;
    let mut i: usize = 0;
    while i < n
        invariant
            n == v@.len(),
            vs == v@.map_values(|s: String| s@),
            i <= n,
            c == count_in(vs.take(i as int), x@),
            c <= i,
        decreases n - i,
    {
        proof {
            assert(vs.take(i + 1).drop_last() =~= vs.take(i as int));
        }
        if v[i] == *x {
            c += 1;
        }
        i += 1;
    }
    proof {
        assert(vs.take(n as int) =~= vs);
    }
    c
}

/// The port names for pins `pins` with default label `default`.
fn pin_labels(pins: &Vec<VisualComponent>, default: &String) -> (r: Vec<String>)
    ensures
        r@.map_values(|s: String| s@) == pin_names(pins@, default@),
{
    let ghost b = pin_bases(pins@, default@);
    let n = pins.len();
    let mut bases: Vec<String> = Vec::new();
    let mut names: Vec<String> = Vec::new();
    let mut p: usize = 0;
    while p < n
        invariant
            n == pins@.len(),
            b == pin_bases(pins@, default@),
            p <= n,
            bases@.map_values(|s: String| s@) == b.take(p as int),
            names@.len() == p,
            forall|q: int| 0 <= q < p ==> (#[trigger] names@[q])@ == pin_names(pins@, default@)[q],
        decreases n - p,
    {
        let base = if pins[p].label == *default || blank(&pins[p].label) {
            suffixed_name(default, p)
        } else {
            pins[p].label.clone()
        };
        assert(base@ == b[p as int]);
        let k = count_strings(&bases, &base);
        let name = if k == 0 {
            base.clone()
        } else {
            suffixed_name(&base, k)
        };
        names.push(name);
        bases.push(base);
        proof {
            assert(b.take(p + 1) =~= b.take(p as int).push(b[p as int]));
            assert(bases@.map_values(|s: String| s@) =~= b.take(p + 1));
        }
        p += 1;
    }
    assert(names@.map_values(|s: String| s@) =~= pin_names(pins@, default@));
    names
}

/// The internal components of the canvas as blueprint components.
fn internal_components(canvas: &Vec<VisualComponent>) -> (r: (Vec<VisualComponent>, Vec<Component>))
    ensures
        r.0@ == internals(canvas@),
        r.1@ == internals(canvas@).map_values(|c: VisualComponent| as_component(c)),
{
    let n = canvas.len();
    let mut ints: Vec<VisualComponent> = Vec::new();
    let mut comps: Vec<Component> = Vec::new();
    let mut i: usize = 0;
    while i < n
        invariant
            n == canvas@.len(),
            i <= n,
            ints@ == internals(canvas@.take(i as int)),
            comps@ == ints@.map_values(|c: VisualComponent| as_component(c)),
        decreases n - i,
    {
        proof {
            assert(canvas@.take(i + 1).drop_last() =~= canvas@.take(i as int));
        }
        let t = canvas[i].comp_type;
        if t != ComponentType::Input && t != ComponentType::Output {
            let c = VisualComponent {
                id: canvas[i].id,
                comp_type: t,
                label: canvas[i].label.clone(),
                clock_period: canvas[i].clock_period,
            };
            comps.push(Component { component_type: t, clock_period: canvas[i].clock_period });
            ints.push(c);
            proof {
                assert(comps@ =~= ints@.map_values(|c: VisualComponent| as_component(c)));
            }
        }
        i += 1;
    }
    proof {
        assert(canvas@.take(n as int) =~= canvas@);
    }
    (ints, comps)
}

/// The position of the first entry with id `id`.
fn find_first(s: &Vec<VisualComponent>, id: usize) -> (r: Option<usize>)
    ensures
        match r {
            Some(p) => first_pos(s@, id) == Some(p as nat),
            None => first_pos(s@, id) is None,
        },
{
    let n = s.len();
    let mut i: usize = 0;
    while i < n
        invariant
            n == s@.len(),
            i <= n,
            first_pos(s@.take(i as int), id) is None,
        decreases n - i,
    {
        proof {
            assert(s@.take(i + 1).drop_last() =~= s@.take(i as int));
        }
        if s[i].id == id {
            proof {
                lemma_first_pos_prefix(s@, id, (i + 1) as nat);
            }
            return Some(i);
        }
        i += 1;
    }
    proof {
        assert(s@.take(n as int) =~= s@);
    }
    None
}

/// A first position found in a prefix is the first position in the whole.
proof fn lemma_first_pos_prefix(s: Seq<VisualComponent>, id: usize, k: nat)
    requires
        k <= s.len(),
        first_pos(s.take(k as int), id) is Some,
    ensures
        first_pos(s, id) == first_pos(s.take(k as int), id),
    decreases s.len() - k,
{
    if k < s.len() {
        assert(s.take((k + 1) as int).drop_last() =~= s.take(k as int));
        lemma_first_pos_prefix(s, id, k + 1);
    } else {
        assert(s.take(k as int) =~= s);
    }
}

/// The position of the last entry with id `id`.
fn find_last(s: &Vec<VisualComponent>, id: usize) -> (r: Option<usize>)
    ensures
        match r {
            Some(p) => last_pos(s@, id) == Some(p as nat),
            None => last_pos(s@, id) is None,
        },
{
    let mut i: usize = s.len();
    proof {
        assert(s@.take(i as int) =~= s@);
    }
    while i > 0
        invariant
            i <= s@.len(),
            last_pos(s@, id) == last_pos(s@.take(i as int), id),
        decreases i,
    {
        proof {
            assert(s@.take(i as int).drop_last() =~= s@.take(i - 1));
        }
        if s[i - 1].id == id {
            return Some(i - 1);
        }
        i -= 1;
    }
    None
}

/// Turns the canvas into a reusable chip named `chip_name`. Its inputs and
/// outputs are the pins `visual_inputs` and `visual_outputs`, in the order
/// given (top to bottom on the canvas); its components are the other canvas
/// components, and its connections the wires whose ends it contains. A
/// canvas with neither components nor such wires gives no chip.
pub fn package_current_canvas(
    chip_name: &String,
    components: &Vec<VisualComponent>,
    connections: &Vec<VisualConnection>,
    visual_inputs: &Vec<VisualComponent>,
    visual_outputs: &Vec<VisualComponent>,
) -> (r: Option<ChipBlueprint>)
    ensures
        match r {
            Some(bp) => packed_blueprint(chip_name@, components@, connections@, visual_inputs@, visual_outputs@)
                == Some(bp@),
            None => packed_blueprint(chip_name@, components@, connections@, visual_inputs@, visual_outputs@) is None,
        },
{
    proof {
        reveal_strlit("IN");
        reveal_strlit("OUT");
    }
    let input_names = pin_labels(visual_inputs, &"IN".to_owned());
    let output_names = pin_labels(visual_outputs, &"OUT".to_owned());
    let (ints, comps) = internal_components(components);
    let ghost ins = visual_inputs@;
    let ghost outs = visual_outputs@;
    let n = connections.len();
    let mut conns: Vec<Connection> = Vec::new();
    let mut i: usize = 0;
    while i < n
        invariant
            n == connections@.len(),
            i <= n,
            ins == visual_inputs@,
            outs == visual_outputs@,
            ints@ == internals(components@),
            conns@ == packed_connections(ins, outs, ints@, connections@.take(i as int)),
        decreases n - i,
    {
        proof {
            assert(connections@.take(i + 1).drop_last() =~= connections@.take(i as int));
            assert(connections@.take(i + 1).last() == connections@[i as int]);
        }
        let w = connections[i];
        let source = match find_first(visual_inputs, w.src_comp_id) {
            Some(p) => Some(SourcePort::ChipInput(p)),
            None => match find_last(&ints, w.src_comp_id) {
                Some(c) => Some(SourcePort::ComponentOutput { component_idx: c, port_idx: w.src_port }),
                None => None,
            },
        };
        let target = match find_first(visual_outputs, w.tgt_comp_id) {
            Some(p) => Some(TargetPort::ChipOutput(p)),
            None => match find_last(&ints, w.tgt_comp_id) {
                Some(c) => Some(TargetPort::ComponentInput { component_idx: c, port_idx: w.tgt_port }),
                None => None,
            },
        };
        assert(source == packed_source(ins, ints@, w));
        assert(target == packed_target(outs, ints@, w));
        match (source, target) {
            (Some(s), Some(t)) => {
                conns.push(Connection { source: s, target: t });
            },
            _ => {},
        }
        i += 1;
    }
    proof {
        assert(connections@.take(n as int) =~= connections@);
    }
    if comps.len() == 0 && conns.len() == 0 {
        return None;
    }
    let bp = ChipBlueprint {
        name: chip_name.clone(),
        inputs: visual_inputs.len(),
        outputs: visual_outputs.len(),
        input_names,
        output_names,
        components: comps,
        connections: conns,
    };
    Some(bp)
}


// ---------------------------------------------------------------------------
// Deleting a selection
// ---------------------------------------------------------------------------

/// The components that stay when those whose ids are in `ids` are deleted.
pub open spec fn kept_components(cs: Seq<VisualComponent>, ids: Seq<usize>) -> Seq<VisualComponent>
    decreases cs.len(),
{
    if cs.len() == 0 {
        Seq::empty()
    } else if ids.contains(cs[0].id) {
        kept_components(cs.drop_first(), ids)
    } else {
        seq![cs[0]] + kept_components(cs.drop_first(), ids)
    }
}

/// A wire stays unless it is selected or touches a deleted component.
pub open spec fn wire_kept(w: VisualConnection, ids: Seq<usize>, selected: Seq<VisualConnection>) -> bool {
    !ids.contains(w.src_comp_id) && !ids.contains(w.tgt_comp_id) && !selected.contains(w)
}

pub open spec fn kept_wires(ws: Seq<VisualConnection>, ids: Seq<usize>, selected: Seq<VisualConnection>) -> Seq<VisualConnection>
    decreases ws.len(),
{
    if ws.len() == 0 {
        Seq::empty()
    } else if wire_kept(ws[0], ids, selected) {
        seq![ws[0]] + kept_wires(ws.drop_first(), ids, selected)
    } else {
        kept_wires(ws.drop_first(), ids, selected)
    }
}

/// Some component of `cs` has id `id`.
pub open spec fn has_id(cs: Seq<VisualComponent>, id: usize) -> bool {
    exists|i: int| 0 <= i < cs.len() && cs[i].id == id
}

/// Both ends of every wire are components of the canvas.
pub open spec fn wires_attached(cs: Seq<VisualComponent>, ws: Seq<VisualConnection>) -> bool {
    forall|k: int|
        0 <= k < ws.len() ==> has_id(cs, (#[trigger] ws[k]).src_comp_id) && has_id(cs, ws[k].tgt_comp_id)
}

fn contains_id(ids: &Vec<usize>, id: usize) -> (r: bool)
    ensures
        r == ids@.contains(id),
{
    let n = ids.len();
    let mut i: usize = 0;
    while i < n
        invariant
            n == ids@.len(),
            i <= n,
            forall|j: int| 0 <= j < i ==> ids@[j] != id,
        decreases n - i,
    {
        if ids[i] == id {
            assert(ids@[i as int] == id);
            return true;
        }
        i += 1;
    }
    false
}

fn contains_wire(ws: &Vec<VisualConnection>, w: VisualConnection) -> (r: bool)
    ensures
        r == ws@.contains(w),
{
    let n = ws.len();
    let mut i: usize = 0;
    while i < n
        invariant
            n == ws@.len(),
            i <= n,
            forall|j: int| 0 <= j < i ==> ws@[j] != w,
        decreases n - i,
    {
        if ws[i] == w {
            assert(ws@[i as int] == w);
            return true;
        }
        i += 1;
    }
    false
}

/// Deletes the selected components, every wire that touches one of them,
/// and the selected wires; everything else keeps its order.
pub fn delete_selection(
    components: &mut Vec<VisualComponent>,
    connections: &mut Vec<VisualConnection>,
    selected_comp_ids: &Vec<usize>,
    selected_connections: &Vec<VisualConnection>,
)
    ensures
        final(components)@ == kept_components(old(components)@, selected_comp_ids@),
        final(connections)@ == kept_wires(old(connections)@, selected_comp_ids@, selected_connections@),
{
    let ghost cs0 = components@;
    let ghost ids = selected_comp_ids@;
    let mut i: usize = components.len();
    proof {
        assert(cs0.skip(i as int) =~= Seq::<VisualComponent>::empty());
        assert(cs0.take(i as int) =~= cs0);
        assert(components@ =~= cs0.take(i as int) + kept_components(cs0.skip(i as int), ids));
    }
    while i > 0
        invariant
            i <= cs0.len(),
            ids == selected_comp_ids@,
            components@ == cs0.take(i as int) + kept_components(cs0.skip(i as int), ids),
        decreases i,
    {
        let j = i - 1;
        proof {
            assert(cs0.skip(j as int)[0] == cs0[j as int]);
            assert(cs0.skip(j as int).drop_first() =~= cs0.skip(i as int));
            assert(components@[j as int] == cs0[j as int]);
        }
        if contains_id(selected_comp_ids, components[j].id) {
            components.remove(j);
            proof {
                assert(components@ =~= cs0.take(j as int) + kept_components(cs0.skip(j as int), ids));
            }
        } else {
            proof {
                assert(components@ =~= cs0.take(j as int) + kept_components(cs0.skip(j as int), ids));
            }
        }
        i = j;
    }
    proof {
        assert(cs0.skip(0) =~= cs0);
        assert(components@ =~= kept_components(cs0, ids));
    }
    let ghost ws0 = connections@;
    let ghost sel = selected_connections@;
    let mut k: usize = connections.len();
    proof {
        assert(ws0.skip(k as int) =~= Seq::<VisualConnection>::empty());
        assert(ws0.take(k as int) =~= ws0);
        assert(connections@ =~= ws0.take(k as int) + kept_wires(ws0.skip(k as int), ids, sel));
    }
    while k > 0
        invariant
            k <= ws0.len(),
            ids == selected_comp_ids@,
            sel == selected_connections@,
            connections@ == ws0.take(k as int) + kept_wires(ws0.skip(k as int), ids, sel),
        decreases k,
    {
        let j = k - 1;
        proof {
            assert(ws0.skip(j as int)[0] == ws0[j as int]);
            assert(ws0.skip(j as int).drop_first() =~= ws0.skip(k as int));
            assert(connections@[j as int] == ws0[j as int]);
        }
        let w = connections[j];
        if contains_id(selected_comp_ids, w.src_comp_id) || contains_id(selected_comp_ids, w.tgt_comp_id)
            || contains_wire(selected_connections, w) {
            connections.remove(j);
            proof {
                assert(connections@ =~= ws0.take(j as int) + kept_wires(ws0.skip(j as int), ids, sel));
            }
        } else {
            proof {
                assert(connections@ =~= ws0.take(j as int) + kept_wires(ws0.skip(j as int), ids, sel));
            }
        }
        k = j;
    }
    proof {
        assert(ws0.skip(0) =~= ws0);
        assert(connections@ =~= kept_wires(ws0, ids, sel));
    }
}

/// A component stays exactly when its id is not deleted.
pub proof fn lemma_kept_components(cs: Seq<VisualComponent>, ids: Seq<usize>, i: int)
    requires
        0 <= i < cs.len(),
        !ids.contains(cs[i].id),
    ensures
        kept_components(cs, ids).contains(cs[i]),
    decreases cs.len(),
{
    let r = kept_components(cs.drop_first(), ids);
    if i == 0 {
        if !ids.contains(cs[0].id) {
            assert((seq![cs[0]] + r)[0] == cs[0]);
        }
    } else {
        lemma_kept_components(cs.drop_first(), ids, i - 1);
        let k = choose|k: int| 0 <= k < r.len() && r[k] == cs[i];
        if !ids.contains(cs[0].id) {
            assert((seq![cs[0]] + r)[k + 1] == cs[i]);
        }
    }
}

/// Every wire that stays was there before and is kept by the rule.
pub proof fn lemma_kept_wires(ws: Seq<VisualConnection>, ids: Seq<usize>, selected: Seq<VisualConnection>, k: int)
    requires
        0 <= k < kept_wires(ws, ids, selected).len(),
    ensures
        ws.contains(kept_wires(ws, ids, selected)[k]),
        wire_kept(kept_wires(ws, ids, selected)[k], ids, selected),
    decreases ws.len(),
{
    let r = kept_wires(ws.drop_first(), ids, selected);
    if wire_kept(ws[0], ids, selected) {
        if k == 0 {
            assert(ws[0] == kept_wires(ws, ids, selected)[0]);
        } else {
            assert(kept_wires(ws, ids, selected)[k] == r[k - 1]);
            lemma_kept_wires(ws.drop_first(), ids, selected, k - 1);
            let j = choose|j: int| 0 <= j < ws.drop_first().len() && ws.drop_first()[j] == r[k - 1];
            assert(ws[j + 1] == r[k - 1]);
        }
    } else {
        lemma_kept_wires(ws.drop_first(), ids, selected, k);
        let j = choose|j: int| 0 <= j < ws.drop_first().len() && ws.drop_first()[j] == r[k];
        assert(ws[j + 1] == r[k]);
    }
}

/// Deleting a selection leaves no dangling wire: when every wire of the
/// canvas connects two of its components, every wire that stays connects
/// two components that stay.
pub proof fn law_deletion_leaves_no_dangling_wire(
    cs: Seq<VisualComponent>,
    ws: Seq<VisualConnection>,
    ids: Seq<usize>,
    selected: Seq<VisualConnection>,
)
    requires
        wires_attached(cs, ws),
    ensures
        wires_attached(kept_components(cs, ids), kept_wires(ws, ids, selected)),
{
    let kc = kept_components(cs, ids);
    let kw = kept_wires(ws, ids, selected);
    assert forall|k: int| 0 <= k < kw.len() implies has_id(kc, (#[trigger] kw[k]).src_comp_id) && has_id(
        kc,
        kw[k].tgt_comp_id,
    ) by {
        lemma_kept_wires(ws, ids, selected, k);
        let w = kw[k];
        let m = choose|m: int| 0 <= m < ws.len() && ws[m] == w;
        assert(has_id(cs, ws[m].src_comp_id) && has_id(cs, ws[m].tgt_comp_id));
        let i = choose|i: int| 0 <= i < cs.len() && cs[i].id == ws[m].src_comp_id;
        let j = choose|j: int| 0 <= j < cs.len() && cs[j].id == ws[m].tgt_comp_id;
        lemma_kept_components(cs, ids, i);
        lemma_kept_components(cs, ids, j);
        let a = choose|a: int| 0 <= a < kc.len() && kc[a] == cs[i];
        let b = choose|b: int| 0 <= b < kc.len() && kc[b] == cs[j];
        assert(kc[a].id == w.src_comp_id);
        assert(kc[b].id == w.tgt_comp_id);
    }
}


// ---------------------------------------------------------------------------
// Saving an edited library chip
// ---------------------------------------------------------------------------

impl EngineState {
    /// Ends the editing of a library chip: the chip packaged from the canvas
    /// (when there is one) replaces the library chip being edited, under
    /// that chip's name, and the canvas goes back to the main circuit: the
    /// main canvas set aside in `stashed` is handed back, to be shown again.
    /// While the main circuit is being edited, nothing happens.
    pub fn save_and_repack_blueprint<S>(
        &mut self,
        editing_target: &mut EditingTarget,
        stashed: &mut Option<S>,
        packed: Option<ChipBlueprint>,
    ) -> (main: Option<S>)
        ensures
            match *old(editing_target) {
                EditingTarget::LibraryChip(_) => main == *old(stashed) && *final(stashed) == None::<S>,
                EditingTarget::MainCanvas => main == None::<S> && *final(stashed) == *old(stashed),
            },
            match *old(editing_target) {
                EditingTarget::LibraryChip(i) => {
                    &&& *final(editing_target) == EditingTarget::MainCanvas
                    &&& match packed {
                        Some(bp) => if i < old(self).library@.len() {
                            &&& final(self).library@.len() == old(self).library@.len()
                            &&& final(self).library@[i as int]@ == (BlueprintModel {
                                name: old(self).library@[i as int].name@,
                                ..bp@
                            })
                            &&& forall|j: int|
                                0 <= j < old(self).library@.len() && j != i ==> #[trigger] final(self).library@[j]
                                    == old(self).library@[j]
                        } else {
                            final(self).library@ == old(self).library@
                        },
                        None => final(self).library@ == old(self).library@,
                    }
                },
                EditingTarget::MainCanvas => {
                    &&& *final(editing_target) == EditingTarget::MainCanvas
                    &&& final(self).library@ == old(self).library@
                },
            },
            final(self).simulator == old(self).simulator,
    {
        if let EditingTarget::LibraryChip(bp_idx) = *editing_target {
            if let Some(new_bp) = packed {
                if bp_idx < self.library.len() {
                    let mut updated_bp = new_bp;
                    updated_bp.name = self.library[bp_idx].name.clone();
                    self.library.set(bp_idx, updated_bp);
                }
            }
            *editing_target = EditingTarget::MainCanvas;
            let mut main: Option<S> = None;
            std::mem::swap(stashed, &mut main);
            main
        } else {
            None
        }
    }
}


// ---------------------------------------------------------------------------
// Loading a project
// ---------------------------------------------------------------------------

/// After a project's chips are imported into the library, its canvas
/// sub-chips refer to the chips' new library indices: every sub-chip index
/// that `index_map` has an entry for is renumbered, and nothing else changes.
pub fn remap_canvas_sub_chips(components: &mut Vec<VisualComponent>, index_map: &HashMap<usize, usize>)
    ensures
        final(components)@.len() == old(components)@.len(),
        forall|i: int|
            0 <= i < old(components)@.len() ==> {
                &&& (#[trigger] final(components)@[i]).comp_type == mapped_type(old(components)@[i].comp_type, index_map@)
                &&& final(components)@[i].id == old(components)@[i].id
                &&& final(components)@[i].label@ == old(components)@[i].label@
                &&& final(components)@[i].clock_period == old(components)@[i].clock_period
            },
{
    broadcast use vstd::std_specs::hash::group_hash_axioms;

    let ghost cs0 = components@;
    let n = components.len();
    let mut i: usize = 0;
    while i < n
        invariant
            n == cs0.len(),
            i <= n,
            components@.len() == n,
            forall|j: int|
                0 <= j < i ==> {
                    &&& (#[trigger] components@[j]).comp_type == mapped_type(cs0[j].comp_type, index_map@)
                    &&& components@[j].id == cs0[j].id
                    &&& components@[j].label@ == cs0[j].label@
                    &&& components@[j].clock_period == cs0[j].clock_period
                },
            forall|j: int| i <= j < n ==> #[trigger] components@[j] == cs0[j],
        decreases n - i,
    {
        if let ComponentType::SubChip(sub_idx) = components[i].comp_type {
            if let Some(new_sub_idx) = index_map.get(&sub_idx) {
                let c = VisualComponent {
                    id: components[i].id,
                    comp_type: ComponentType::SubChip(*new_sub_idx),
                    label: components[i].label.clone(),
                    clock_period: components[i].clock_period,
                };
                components.set(i, c);
            }
        }
        i += 1;
    }
}


// ---------------------------------------------------------------------------
// Unpacking a library chip onto the canvas
// ---------------------------------------------------------------------------

/// The label of pin `i` of a chip with port names `names`: its name, or the
/// default label when it has none.
pub open spec fn pin_label(names: Seq<Seq<char>>, i: int, default: Seq<char>) -> Seq<char> {
    if i < names.len() {
        names[i]
    } else {
        default
    }
}

/// The canvas wire that stands for connection `c` of a blueprint with `nc`
/// components and `ni` inputs: component `k` has id `k + 1`, input pin `i`
/// id `nc + i + 1`, output pin `o` id `nc + ni + o + 1`.
pub open spec fn unpacked_wire(nc: nat, ni: nat, c: Connection) -> VisualConnection {
    let (src_comp_id, src_port) = match c.source {
        SourcePort::ChipInput(i) => ((nc + i + 1) as usize, 0usize),
        SourcePort::ComponentOutput { component_idx: k, port_idx: p } => ((k + 1) as usize, p),
    };
    let (tgt_comp_id, tgt_port) = match c.target {
        TargetPort::ChipOutput(o) => ((nc + ni + o + 1) as usize, 0usize),
        TargetPort::ComponentInput { component_idx: k, port_idx: p } => ((k + 1) as usize, p),
    };
    VisualConnection { src_comp_id, src_port, tgt_comp_id, tgt_port }
}

/// The ids fit, and every connection names a component or pin of the chip.
pub open spec fn unpack_ok(bp: ChipBlueprint) -> bool {
    &&& bp.components@.len() + bp.inputs + bp.outputs + 1 < usize::MAX
    &&& forall|k: int|
        0 <= k < bp.connections@.len() ==> {
            &&& match (#[trigger] bp.connections@[k]).source {
                SourcePort::ChipInput(i) => i < bp.inputs,
                SourcePort::ComponentOutput { component_idx: c, .. } => c < bp.components@.len(),
            }
            &&& match bp.connections@[k].target {
                TargetPort::ChipOutput(o) => o < bp.outputs,
                TargetPort::ComponentInput { component_idx: c, .. } => c < bp.components@.len(),
            }
        }
}

impl EngineState {
    /// Opens library chip `bp_idx` for editing: the main canvas `main` that
    /// was shown is set aside in `stashed`, the canvas now edits the chip,
    /// and the canvas that shows the chip is returned: its components with
    /// ids `1, 2, ...`, then an input pin per chip input and an output pin
    /// per chip output, labelled with the port names, and a wire per
    /// connection; with the next free component id. `None`, with nothing
    /// changed, when the library has no such chip. An edit in progress is
    /// first ended with `save_and_repack_blueprint`, which hands the main
    /// canvas back. (Where the pins stand on screen is the editor's layout.)
    pub fn unpack_blueprint_to_canvas<S>(
        &self,
        bp_idx: usize,
        editing_target: &mut EditingTarget,
        stashed: &mut Option<S>,
        main: S,
    ) -> (r: Option<(Vec<VisualComponent>, Vec<VisualConnection>, usize)>)
        requires
            bp_idx < self.library@.len() ==> unpack_ok(self.library@[bp_idx as int]),
        ensures
            r is None ==> *final(editing_target) == *old(editing_target) && *final(stashed) == *old(stashed),
            r is Some ==> *final(editing_target) == EditingTarget::LibraryChip(bp_idx) && *final(stashed) == Some(main),
            match r {
                None => bp_idx >= self.library@.len(),
                Some((cs, ws, next)) => {
                    let bp = self.library@[bp_idx as int];
                    let nc = bp.components@.len();
                    let ni = bp.inputs as nat;
                    &&& bp_idx < self.library@.len()
                    &&& cs@.len() == nc + bp.inputs + bp.outputs
                    &&& next == cs@.len() + 1
                    &&& forall|i: int|
                        0 <= i < nc ==> {
                            &&& (#[trigger] cs@[i]).id == i + 1
                            &&& cs@[i].comp_type == bp.components@[i].component_type
                            &&& cs@[i].label@ == component_label(self.library@, bp.components@[i].component_type)
                            &&& cs@[i].clock_period == bp.components@[i].clock_period
                        }
                    &&& forall|i: int|
                        0 <= i < bp.inputs ==> {
                            &&& (#[trigger] cs@[nc + i]).id == nc + i + 1
                            &&& cs@[nc + i].comp_type == ComponentType::Input
                            &&& cs@[nc + i].label@ == pin_label(bp@.input_names, i, "IN"@)
                            &&& cs@[nc + i].clock_period is None
                        }
                    &&& forall|o: int|
                        0 <= o < bp.outputs ==> {
                            &&& (#[trigger] cs@[nc + ni + o]).id == nc + ni + o + 1
                            &&& cs@[nc + ni + o].comp_type == ComponentType::Output
                            &&& cs@[nc + ni + o].label@ == pin_label(bp@.output_names, o, "OUT"@)
                            &&& cs@[nc + ni + o].clock_period is None
                        }
                    &&& ws@ == bp.connections@.map_values(|c: Connection| unpacked_wire(nc, ni, c))
                },
            },
    {
        let r = self.chip_canvas(bp_idx);
        if r.is_some() {
            *stashed = Some(main);
            *editing_target = EditingTarget::LibraryChip(bp_idx);
        }
        r
    }

    /// The canvas that shows library chip `bp_idx`, as
    /// `unpack_blueprint_to_canvas` describes it.
    fn chip_canvas(&self, bp_idx: usize) -> (r: Option<(Vec<VisualComponent>, Vec<VisualConnection>, usize)>)
        requires
            bp_idx < self.library@.len() ==> unpack_ok(self.library@[bp_idx as int]),
        ensures
            match r {
                None => bp_idx >= self.library@.len(),
                Some((cs, ws, next)) => {
                    let bp = self.library@[bp_idx as int];
                    let nc = bp.components@.len();
                    let ni = bp.inputs as nat;
                    &&& bp_idx < self.library@.len()
                    &&& cs@.len() == nc + bp.inputs + bp.outputs
                    &&& next == cs@.len() + 1
                    &&& forall|i: int|
                        0 <= i < nc ==> {
                            &&& (#[trigger] cs@[i]).id == i + 1
                            &&& cs@[i].comp_type == bp.components@[i].component_type
                            &&& cs@[i].label@ == component_label(self.library@, bp.components@[i].component_type)
                            &&& cs@[i].clock_period == bp.components@[i].clock_period
                        }
                    &&& forall|i: int|
                        0 <= i < bp.inputs ==> {
                            &&& (#[trigger] cs@[nc + i]).id == nc + i + 1
                            &&& cs@[nc + i].comp_type == ComponentType::Input
                            &&& cs@[nc + i].label@ == pin_label(bp@.input_names, i, "IN"@)
                            &&& cs@[nc + i].clock_period is None
                        }
                    &&& forall|o: int|
                        0 <= o < bp.outputs ==> {
                            &&& (#[trigger] cs@[nc + ni + o]).id == nc + ni + o + 1
                            &&& cs@[nc + ni + o].comp_type == ComponentType::Output
                            &&& cs@[nc + ni + o].label@ == pin_label(bp@.output_names, o, "OUT"@)
                            &&& cs@[nc + ni + o].clock_period is None
                        }
                    &&& ws@ == bp.connections@.map_values(|c: Connection| unpacked_wire(nc, ni, c))
                },
            },
    {
        if bp_idx >= self.library.len() {
            return None;
        }
        proof {
            reveal_strlit("IN");
            reveal_strlit("OUT");
        }
        let bp = &self.library[bp_idx];
        let nc = bp.components.len();
        let ni = bp.inputs;
        let no = bp.outputs;
        let mut cs: Vec<VisualComponent> = Vec::new();
        let mut next_id: usize = 1;
        let mut i: usize = 0;
        while i < nc
            invariant
                *bp == self.library@[bp_idx as int],
                nc == bp.components@.len(),
                unpack_ok(*bp),
                i <= nc,
                cs@.len() == i,
                next_id == i + 1,
                forall|j: int|
                    0 <= j < i ==> {
                        &&& (#[trigger] cs@[j]).id == j + 1
                        &&& cs@[j].comp_type == bp.components@[j].component_type
                        &&& cs@[j].label@ == component_label(self.library@, bp.components@[j].component_type)
                        &&& cs@[j].clock_period == bp.components@[j].clock_period
                    },
            decreases nc - i,
        {
            let comp = bp.components[i];
            let label = self.get_component_label(comp.component_type);
            cs.push(VisualComponent { id: next_id, comp_type: comp.component_type, label, clock_period: comp.clock_period });
            next_id += 1;
            i += 1;
        }
        let mut k: usize = 0;
        while k < ni
            invariant
                *bp == self.library@[bp_idx as int],
                nc == bp.components@.len(),
                ni == bp.inputs,
                unpack_ok(*bp),
                k <= ni,
                cs@.len() == nc + k,
                next_id == nc + k + 1,
                forall|j: int|
                    0 <= j < nc ==> {
                        &&& (#[trigger] cs@[j]).id == j + 1
                        &&& cs@[j].comp_type == bp.components@[j].component_type
                        &&& cs@[j].label@ == component_label(self.library@, bp.components@[j].component_type)
                        &&& cs@[j].clock_period == bp.components@[j].clock_period
                    },
                forall|j: int|
                    0 <= j < k ==> {
                        &&& (#[trigger] cs@[nc + j]).id == nc + j + 1
                        &&& cs@[nc + j].comp_type == ComponentType::Input
                        &&& cs@[nc + j].label@ == pin_label(bp@.input_names, j, "IN"@)
                        &&& cs@[nc + j].clock_period is None
                    },
            decreases ni - k,
        {
            let label = if k < bp.input_names.len() {
                bp.input_names[k].clone()
            } else {
                "IN".to_owned()
            };
            cs.push(VisualComponent { id: next_id, comp_type: ComponentType::Input, label, clock_period: None });
            next_id += 1;
            k += 1;
        }
        let mut o: usize = 0;
        while o < no
            invariant
                *bp == self.library@[bp_idx as int],
                nc == bp.components@.len(),
                ni == bp.inputs,
                no == bp.outputs,
                unpack_ok(*bp),
                o <= no,
                cs@.len() == nc + ni + o,
                next_id == nc + ni + o + 1,
                forall|j: int|
                    0 <= j < nc ==> {
                        &&& (#[trigger] cs@[j]).id == j + 1
                        &&& cs@[j].comp_type == bp.components@[j].component_type
                        &&& cs@[j].label@ == component_label(self.library@, bp.components@[j].component_type)
                        &&& cs@[j].clock_period == bp.components@[j].clock_period
                    },
                forall|j: int|
                    0 <= j < ni ==> {
                        &&& (#[trigger] cs@[nc + j]).id == nc + j + 1
                        &&& cs@[nc + j].comp_type == ComponentType::Input
                        &&& cs@[nc + j].label@ == pin_label(bp@.input_names, j, "IN"@)
                        &&& cs@[nc + j].clock_period is None
                    },
                forall|j: int|
                    0 <= j < o ==> {
                        &&& (#[trigger] cs@[nc + ni + j]).id == nc + ni + j + 1
                        &&& cs@[nc + ni + j].comp_type == ComponentType::Output
                        &&& cs@[nc + ni + j].label@ == pin_label(bp@.output_names, j, "OUT"@)
                        &&& cs@[nc + ni + j].clock_period is None
                    },
            decreases no - o,
        {
            let label = if o < bp.output_names.len() {
                bp.output_names[o].clone()
            } else {
                "OUT".to_owned()
            };
            cs.push(VisualComponent { id: next_id, comp_type: ComponentType::Output, label, clock_period: None });
            next_id += 1;
            o += 1;
        }
        let nw = bp.connections.len();
        let mut ws: Vec<VisualConnection> = Vec::new();
        let mut w: usize = 0;
        while w < nw
            invariant
                *bp == self.library@[bp_idx as int],
                nc == bp.components@.len(),
                ni == bp.inputs,
                nw == bp.connections@.len(),
                unpack_ok(*bp),
                w <= nw,
                ws@ == bp.connections@.take(w as int).map_values(|c: Connection| unpacked_wire(nc as nat, ni as nat, c)),
            decreases nw - w,
        {
            let c = bp.connections[w];
            let (src_comp_id, src_port) = match c.source {
                SourcePort::ChipInput(idx) => (nc + idx + 1, 0),
                SourcePort::ComponentOutput { component_idx, port_idx } => (component_idx + 1, port_idx),
            };
            let (tgt_comp_id, tgt_port) = match c.target {
                TargetPort::ChipOutput(idx) => (nc + ni + idx + 1, 0),
                TargetPort::ComponentInput { component_idx, port_idx } => (component_idx + 1, port_idx),
            };
            ws.push(VisualConnection { src_comp_id, src_port, tgt_comp_id, tgt_port });
            proof {
                assert(bp.connections@.take(w + 1) =~= bp.connections@.take(w as int).push(c));
                assert(ws@ =~= bp.connections@.take(w + 1).map_values(|c: Connection| unpacked_wire(nc as nat, ni as nat, c)));
            }
            w += 1;
        }
        proof {
            assert(bp.connections@.take(nw as int) =~= bp.connections@);
        }
        Some((cs, ws, next_id))
    }
}

/// Leaving the editing of a library chip: the canvas goes back to the main
/// circuit, and the main canvas set aside in `stashed` is taken out and
/// handed back, to be shown again.
pub open spec fn returned<S>(editing_target: EditingTarget, stashed: Option<S>) -> (EditingTarget, Option<S>, Option<S>) {
    match editing_target {
        EditingTarget::LibraryChip(_) => (EditingTarget::MainCanvas, None, stashed),
        EditingTarget::MainCanvas => (EditingTarget::MainCanvas, stashed, None),
    }
}

/// Leaving the editing of a library chip without saving: the canvas goes
/// back to the main circuit, and the main canvas that was set aside is
/// handed back (the library is not touched, so the edits are dropped).
/// While the main circuit is being edited, nothing happens.
pub fn cancel_and_return<S>(editing_target: &mut EditingTarget, stashed: &mut Option<S>) -> (main: Option<S>)
    ensures
        (*final(editing_target), *final(stashed), main) == returned(*old(editing_target), *old(stashed)),
{
    if let EditingTarget::LibraryChip(_) = *editing_target {
        *editing_target = EditingTarget::MainCanvas;
        let mut main: Option<S> = None;
        std::mem::swap(stashed, &mut main);
        main
    } else {
        None
    }
}

/// Unpacking a chip for editing and then cancelling gives back the main
/// canvas that was shown before, and leaves nothing set aside.
pub proof fn law_cancel_restores_the_main_canvas<S>(bp_idx: usize, main: S)
    ensures
        returned(EditingTarget::LibraryChip(bp_idx), Some(main)) == (EditingTarget::MainCanvas, None::<S>, Some(main)),
{
}


// ---------------------------------------------------------------------------
// Finishing a wire
// ---------------------------------------------------------------------------

/// Whether wire `c` goes into input `port` of component `id`.
pub open spec fn feeds_port(c: VisualConnection, id: usize, port: usize) -> bool {
    c.tgt_comp_id == id && c.tgt_port == port
}

/// The wires after a new wire is drawn: an input port takes one wire, so
/// the wires that went into the new wire's input port are removed, in
/// order, and the new wire is added last.
pub open spec fn with_wire(ws: Seq<VisualConnection>, w: VisualConnection) -> Seq<VisualConnection> {
    ws.filter(other_port(w)).push(w)
}

/// Whether a wire goes into another input port than wire `w`.
pub open spec fn other_port(w: VisualConnection) -> spec_fn(VisualConnection) -> bool {
    |c: VisualConnection| !feeds_port(c, w.tgt_comp_id, w.tgt_port)
}

/// Adds the wire drawn from an output port to an input port, replacing
/// whatever wire went into that input port before.
pub fn add_wire(connections: &mut Vec<VisualConnection>, wire: VisualConnection)
    ensures
        final(connections)@ == with_wire(old(connections)@, wire),
{
    let ghost ws = connections@;
    let ghost keep = other_port(wire);
    let mut kept: Vec<VisualConnection> = Vec::new();
    let n = connections.len();
    let mut i: usize = 0;
    proof {
        assert(ws.take(0) =~= Seq::<VisualConnection>::empty());
    }
    while i < n
        invariant
            n == ws.len(),
            ws == old(connections)@,
            *connections == *old(connections),
            keep == other_port(wire),
            i <= n,
            kept@ == ws.take(i as int).filter(keep),
        decreases n - i,
    {
        let c = connections[i];
        proof {
            assert(ws.take(i + 1).drop_last() =~= ws.take(i as int));
            assert(ws.take(i + 1).last() == c);
            let t = ws.take(i + 1);
            assert(t.len() > 0);
            reveal_with_fuel(Seq::filter, 1);
            assert(keep(c) == !(c.tgt_comp_id == wire.tgt_comp_id && c.tgt_port == wire.tgt_port));
            assert(t.filter(keep) == (if keep(t.last()) {
                t.drop_last().filter(keep).push(t.last())
            } else {
                t.drop_last().filter(keep)
            }));
        }
        if !(c.tgt_comp_id == wire.tgt_comp_id && c.tgt_port == wire.tgt_port) {
            kept.push(c);
        }
        i += 1;
    }
    proof {
        assert(ws.take(n as int) =~= ws);
    }
    kept.push(wire);
    *connections = kept;
}


// ---------------------------------------------------------------------------
// Packaging and unpacking keep the ports of wires
// ---------------------------------------------------------------------------

proof fn lemma_last_pos_found(s: Seq<VisualComponent>, id: usize)
    ensures
        last_pos(s, id) matches Some(c) ==> c < s.len() && s[c as int].id == id,
    decreases s.len(),
{
    if s.len() > 0 && s.last().id != id {
        lemma_last_pos_found(s.drop_last(), id);
    }
}

proof fn lemma_first_pos_found(s: Seq<VisualComponent>, id: usize)
    ensures
        first_pos(s, id) matches Some(c) ==> c < s.len() && s[c as int].id == id,
    decreases s.len(),
{
    if s.len() > 0 {
        lemma_first_pos_found(s.drop_last(), id);
    }
}

/// In components numbered `base + 1, base + 2, ...` in order, an id is found
/// at its own place, and an id outside the numbers is not found.
proof fn lemma_pos_by_number(s: Seq<VisualComponent>, base: nat, id: usize)
    requires
        forall|j: int| 0 <= j < s.len() ==> #[trigger] s[j].id == base + j + 1,
    ensures
        first_pos(s, id) == (if base < id <= base + s.len() { Some((id - base - 1) as nat) } else { None::<nat> }),
        last_pos(s, id) == (if base < id <= base + s.len() { Some((id - base - 1) as nat) } else { None::<nat> }),
    decreases s.len(),
{
    if s.len() > 0 {
        let t = s.drop_last();
        assert forall|j: int| 0 <= j < t.len() implies #[trigger] t[j].id == base + j + 1 by {
            assert(t[j] == s[j]);
        }
        lemma_pos_by_number(t, base, id);
        assert(s.last() == s[s.len() - 1]);
        assert(s.last().id == base + s.len());
        if base < id <= base + t.len() {
            assert(first_pos(s, id) == first_pos(t, id));
            assert(s.last().id != id);
            assert(last_pos(s, id) == last_pos(t, id));
        } else if id == base + s.len() {
            assert(first_pos(t, id) is None);
            assert(first_pos(s, id) == Some((s.len() - 1) as nat));
            assert(last_pos(s, id) == Some((s.len() - 1) as nat));
        } else {
            assert(s.last().id != id);
        }
    } else {
        assert(first_pos(s, id) is None);
        assert(last_pos(s, id) is None);
    }
}

/// Packaging keeps the port a wire leaves from: a wire that leaves output
/// `q` of an internal component becomes a connection from output `q` of
/// the chip component it stands for, and one that leaves an input pin
/// becomes a connection from that pin's chip input. A wire's target keeps
/// its port the same way.
pub proof fn law_packaging_keeps_wire_ports(
    ins: Seq<VisualComponent>,
    outs: Seq<VisualComponent>,
    ints: Seq<VisualComponent>,
    w: VisualConnection,
)
    requires
        ins.len() <= usize::MAX,
        outs.len() <= usize::MAX,
        ints.len() <= usize::MAX,
    ensures
        packed_source(ins, ints, w) matches Some(SourcePort::ComponentOutput { component_idx: c, port_idx: q }) ==> {
            &&& q == w.src_port
            &&& c < ints.len()
            &&& ints[c as int].id == w.src_comp_id
        },
        packed_source(ins, ints, w) matches Some(SourcePort::ChipInput(i)) ==> i < ins.len() && ins[i as int].id
            == w.src_comp_id,
        packed_target(outs, ints, w) matches Some(TargetPort::ComponentInput { component_idx: c, port_idx: q }) ==> {
            &&& q == w.tgt_port
            &&& c < ints.len()
            &&& ints[c as int].id == w.tgt_comp_id
        },
        packed_target(outs, ints, w) matches Some(TargetPort::ChipOutput(o)) ==> o < outs.len() && outs[o as int].id
            == w.tgt_comp_id,
{
    lemma_first_pos_found(ins, w.src_comp_id);
    lemma_last_pos_found(ints, w.src_comp_id);
    lemma_first_pos_found(outs, w.tgt_comp_id);
    lemma_last_pos_found(ints, w.tgt_comp_id);
}

/// Unpacking a chip and packaging the canvas again gives each connection
/// back: the wire drawn for a connection leaves the canvas component (or
/// input pin) that stands for the connection's source, from the same port,
/// and enters the one that stands for its target, at the same port. Here
/// the internal components are numbered `1..=nc`, the input pins follow,
/// then the output pins, as unpacking lays them out.
pub proof fn law_unpacked_wires_package_back(
    nc: nat,
    ins: Seq<VisualComponent>,
    outs: Seq<VisualComponent>,
    ints: Seq<VisualComponent>,
    c: Connection,
)
    requires
        ints.len() == nc,
        forall|j: int| 0 <= j < nc ==> #[trigger] ints[j].id == j + 1,
        forall|i: int| 0 <= i < ins.len() ==> #[trigger] ins[i].id == nc + i + 1,
        forall|o: int| 0 <= o < outs.len() ==> #[trigger] outs[o].id == nc + ins.len() + o + 1,
        nc + ins.len() + outs.len() + 1 < usize::MAX,
        match c.source {
            SourcePort::ChipInput(i) => i < ins.len(),
            SourcePort::ComponentOutput { component_idx: k, .. } => k < nc,
        },
        match c.target {
            TargetPort::ChipOutput(o) => o < outs.len(),
            TargetPort::ComponentInput { component_idx: k, .. } => k < nc,
        },
    ensures
        packed_source(ins, ints, unpacked_wire(nc, ins.len(), c)) == Some(c.source),
        packed_target(outs, ints, unpacked_wire(nc, ins.len(), c)) == Some(c.target),
{
    let w = unpacked_wire(nc, ins.len(), c);
    lemma_pos_by_number(ins, nc, w.src_comp_id);
    lemma_pos_by_number(ints, 0, w.src_comp_id);
    lemma_pos_by_number(outs, nc + ins.len(), w.tgt_comp_id);
    lemma_pos_by_number(ints, 0, w.tgt_comp_id);
}


/// Pins have a single port: an unpacked wire that leaves an input pin
/// leaves its port 0, one that enters an output pin enters its port 0, and
/// wires between internal components keep the ports of their connection.
pub proof fn law_unpacked_wire_ports(nc: nat, ni: nat, c: Connection)
    ensures
        c.source is ChipInput ==> unpacked_wire(nc, ni, c).src_port == 0,
        c.target is ChipOutput ==> unpacked_wire(nc, ni, c).tgt_port == 0,
        c.source matches SourcePort::ComponentOutput { port_idx: p, .. } ==> unpacked_wire(nc, ni, c).src_port == p,
        c.target matches TargetPort::ComponentInput { port_idx: p, .. } ==> unpacked_wire(nc, ni, c).tgt_port == p,
{
}

} // verus!
