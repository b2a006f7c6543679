use vstd::prelude::*;

use crate::compiler::{acyclic, library_ok, ranks_sub_chips, sources_fit};
use crate::engine::EngineState;
use crate::types::{ChipBlueprint, Component, ComponentType, Connection, SourcePort, TargetPort};

verus! {

/// The NAND component, as the default chips use it.
pub open spec fn nand_component() -> Component {
    Component { component_type: ComponentType::Nand, clock_period: None }
}

/// A chip built from NAND gates alone, whose wires read NAND outputs and
/// chip inputs and feed NAND inputs and chip outputs that exist.
pub open spec fn nand_chip_ok(bp: ChipBlueprint) -> bool {
    &&& forall|c: int| 0 <= c < bp.components@.len() ==> #[trigger] bp.components@[c] == nand_component()
    &&& forall|k: int|
        0 <= k < bp.connections@.len() ==> {
            &&& match (#[trigger] bp.connections@[k]).source {
                SourcePort::ComponentOutput { component_idx: c, port_idx: p } => c < bp.components@.len() && p == 0,
                SourcePort::ChipInput(i) => i < bp.inputs,
            }
            &&& match bp.connections@[k].target {
                TargetPort::ComponentInput { component_idx: c, port_idx: p } => c < bp.components@.len() && p < 2,
                TargetPort::ChipOutput(o) => o < bp.outputs,
            }
        }
}

/// The names of the default chips, in library order.
pub open spec fn default_names() -> Seq<Seq<char>> {
    seq!["AND"@, "OR"@, "XOR"@, "NOT"@, "NOR"@, "XNOR"@]
}

/// The number of NAND gates of each default chip.
pub open spec fn default_sizes() -> Seq<nat> {
    seq![2nat, 3nat, 4nat, 1nat, 4nat, 5nat]
}

pub open spec fn w(source: SourcePort, target: TargetPort) -> Connection {
    Connection { source, target }
}

pub open spec fn ci(i: usize) -> SourcePort {
    SourcePort::ChipInput(i)
}

pub open spec fn no(c: usize) -> SourcePort {
    SourcePort::ComponentOutput { component_idx: c, port_idx: 0 }
}

pub open spec fn ni(c: usize, p: usize) -> TargetPort {
    TargetPort::ComponentInput { component_idx: c, port_idx: p }
}

pub open spec fn co(o: usize) -> TargetPort {
    TargetPort::ChipOutput(o)
}

/// The wires of the AND chip.
pub open spec fn and_wiring() -> Seq<Connection> {
    seq![
        w(ci(0), ni(0, 0)),
        w(ci(1), ni(0, 1)),
        w(no(0), ni(1, 0)),
        w(no(0), ni(1, 1)),
        w(no(1), co(0)),
    ]
}

/// The wires of the OR chip.
pub open spec fn or_wiring() -> Seq<Connection> {
    seq![
        w(ci(0), ni(0, 0)),
        w(ci(0), ni(0, 1)),
        w(ci(1), ni(1, 0)),
        w(ci(1), ni(1, 1)),
        w(no(0), ni(2, 0)),
        w(no(1), ni(2, 1)),
        w(no(2), co(0)),
    ]
}

/// The wires of the XOR chip.
pub open spec fn xor_wiring() -> Seq<Connection> {
    seq![
        w(ci(0), ni(0, 0)),
        w(ci(0), ni(1, 0)),
        w(ci(1), ni(0, 1)),
        w(ci(1), ni(2, 1)),
        w(no(0), ni(1, 1)),
        w(no(0), ni(2, 0)),
        w(no(1), ni(3, 0)),
        w(no(2), ni(3, 1)),
        w(no(3), co(0)),
    ]
}

/// The wires of the NOT chip.
pub open spec fn not_wiring() -> Seq<Connection> {
    seq![
        w(ci(0), ni(0, 0)),
        w(ci(0), ni(0, 1)),
        w(no(0), co(0)),
    ]
}

/// The wires of the NOR chip.
pub open spec fn nor_wiring() -> Seq<Connection> {
    seq![
        w(ci(0), ni(0, 0)),
        w(ci(0), ni(0, 1)),
        w(ci(1), ni(1, 0)),
        w(ci(1), ni(1, 1)),
        w(no(0), ni(2, 0)),
        w(no(1), ni(2, 1)),
        w(no(2), ni(3, 0)),
        w(no(2), ni(3, 1)),
        w(no(3), co(0)),
    ]
}

/// The wires of the XNOR chip.
pub open spec fn xnor_wiring() -> Seq<Connection> {
    seq![
        w(ci(0), ni(0, 0)),
        w(ci(0), ni(1, 0)),
        w(ci(1), ni(0, 1)),
        w(ci(1), ni(2, 1)),
        w(no(0), ni(1, 1)),
        w(no(0), ni(2, 0)),
        w(no(1), ni(3, 0)),
        w(no(2), ni(3, 1)),
        w(no(3), ni(4, 0)),
        w(no(3), ni(4, 1)),
        w(no(4), co(0)),
    ]
}

/// The wires of the default chips, in library order.
pub open spec fn default_wiring() -> Seq<Seq<Connection>> {
    seq![and_wiring(), or_wiring(), xor_wiring(), not_wiring(), nor_wiring(), xnor_wiring()]
}

fn wire(source: SourcePort, target: TargetPort) -> (c: Connection)
    ensures
        c == (Connection { source, target }),
{
    Connection { source, target }
}

fn chip_in(i: usize) -> (s: SourcePort)
    ensures
        s == SourcePort::ChipInput(i),
{
    SourcePort::ChipInput(i)
}

fn nand_out(c: usize) -> (s: SourcePort)
    ensures
        s == (SourcePort::ComponentOutput { component_idx: c, port_idx: 0 }),
{
    SourcePort::ComponentOutput { component_idx: c, port_idx: 0 }
}

fn nand_in(c: usize, p: usize) -> (t: TargetPort)
    ensures
        t == (TargetPort::ComponentInput { component_idx: c, port_idx: p }),
{
    TargetPort::ComponentInput { component_idx: c, port_idx: p }
}

fn chip_out(o: usize) -> (t: TargetPort)
    ensures
        t == TargetPort::ChipOutput(o),
{
    TargetPort::ChipOutput(o)
}

/// A chip of `n` NAND gates with the given interface and wires.
fn nand_chip(name: &str, input_names: Vec<String>, output_names: Vec<String>, n: usize, connections: Vec<Connection>) -> (bp: ChipBlueprint)
    requires
        forall|k: int|
            0 <= k < connections@.len() ==> {
                &&& match (#[trigger] connections@[k]).source {
                    SourcePort::ComponentOutput { component_idx: c, port_idx: p } => c < n && p == 0,
                    SourcePort::ChipInput(i) => i < input_names@.len(),
                }
                &&& match connections@[k].target {
                    TargetPort::ComponentInput { component_idx: c, port_idx: p } => c < n && p < 2,
                    TargetPort::ChipOutput(o) => o < output_names@.len(),
                }
            },
    ensures
        bp.name@ == name@,
        bp.inputs == input_names@.len(),
        bp.outputs == output_names@.len(),
        bp.input_names@ == input_names@,
        bp.output_names@ == output_names@,
        bp.components@.len() == n,
        bp.connections@ == connections@,
        nand_chip_ok(bp),
{
    let mut components: Vec<Component> = Vec::new();
    let mut i: usize = 0;
    while i < n
        invariant
            i <= n,
            components@.len() == i,
            forall|c: int| 0 <= c < i ==> #[trigger] components@[c] == nand_component(),
        decreases n - i,
    {
        components.push(Component { component_type: ComponentType::Nand, clock_period: None });
        i += 1;
    }
    ChipBlueprint {
        name: name.to_owned(),
        inputs: input_names.len(),
        outputs: output_names.len(),
        input_names,
        output_names,
        components,
        connections,
    }
}

fn names1(a: &str) -> (v: Vec<String>)
    ensures
        v@.len() == 1,
        v@[0]@ == a@,
        v@.map_values(|s: String| s@) == seq![a@],
{
    let mut v = Vec::new();
    v.push(a.to_owned());
    assert(v@.map_values(|s: String| s@) =~= seq![a@]);
    v
}

fn names2(a: &str, b: &str) -> (v: Vec<String>)
    ensures
        v@.len() == 2,
        v@[0]@ == a@,
        v@[1]@ == b@,
        v@.map_values(|s: String| s@) == seq![a@, b@],
{
    let mut v = Vec::new();
    v.push(a.to_owned());
    v.push(b.to_owned());
    assert(v@.map_values(|s: String| s@) =~= seq![a@, b@]);
    v
}

impl EngineState {
    /// Adds the starter chips to the library: AND, OR, XOR, NOT, NOR and
    /// XNOR, each built from NAND gates. On an empty library the result is
    /// a library that compiles.
    pub fn setup_default_library(&mut self)
        ensures
            final(self).library@.len() == old(self).library@.len() + 6,
            final(self).library@.take(old(self).library@.len() as int) == old(self).library@,
            forall|t: int|
                0 <= t < 6 ==> {
                    let bp = #[trigger] final(self).library@[old(self).library@.len() + t];
                    &&& bp.name@ == default_names()[t]
                    &&& bp.inputs == (if t == 3 { 1usize } else { 2usize })
                    &&& bp.outputs == 1
                    &&& bp.components@.len() == default_sizes()[t]
                    &&& bp.connections@ == default_wiring()[t]
                    &&& bp@.input_names == (if t == 3 { seq!["IN"@] } else { seq!["A"@, "B"@] })
                    &&& bp@.output_names == seq!["OUT"@]
                    &&& nand_chip_ok(bp)
                },
            old(self).library@.len() == 0 ==> library_ok(final(self).library@),
            final(self).simulator == old(self).simulator,
            final(self).active_clocks@ == old(self).active_clocks@,
    {
        proof {
            reveal_strlit("AND");
            reveal_strlit("OR");
            reveal_strlit("XOR");
            reveal_strlit("NOT");
            reveal_strlit("NOR");
            reveal_strlit("XNOR");
            reveal_strlit("A");
            reveal_strlit("B");
            reveal_strlit("IN");
            reveal_strlit("OUT");
        }
        let ghost lib0 = self.library@;
        // 0: AND (2 NANDs)
        let mut c: Vec<Connection> = Vec::new();
        c.push(wire(chip_in(0), nand_in(0, 0)));
        c.push(wire(chip_in(1), nand_in(0, 1)));
        c.push(wire(nand_out(0), nand_in(1, 0)));
        c.push(wire(nand_out(0), nand_in(1, 1)));
        c.push(wire(nand_out(1), chip_out(0)));
        proof {
            assert(c@ =~= and_wiring());
        }
        self.library.push(nand_chip("AND", names2("A", "B"), names1("OUT"), 2, c));
        // 1: OR (3 NANDs)
        let mut c: Vec<Connection> = Vec::new();
        c.push(wire(chip_in(0), nand_in(0, 0)));
        c.push(wire(chip_in(0), nand_in(0, 1)));
        c.push(wire(chip_in(1), nand_in(1, 0)));
        c.push(wire(chip_in(1), nand_in(1, 1)));
        c.push(wire(nand_out(0), nand_in(2, 0)));
        c.push(wire(nand_out(1), nand_in(2, 1)));
        c.push(wire(nand_out(2), chip_out(0)));
        proof {
            assert(c@ =~= or_wiring());
        }
        self.library.push(nand_chip("OR", names2("A", "B"), names1("OUT"), 3, c));
        // 2: XOR (4 NANDs)
        let mut c: Vec<Connection> = Vec::new();
        c.push(wire(chip_in(0), nand_in(0, 0)));
        c.push(wire(chip_in(0), nand_in(1, 0)));
        c.push(wire(chip_in(1), nand_in(0, 1)));
        c.push(wire(chip_in(1), nand_in(2, 1)));
        c.push(wire(nand_out(0), nand_in(1, 1)));
        c.push(wire(nand_out(0), nand_in(2, 0)));
        c.push(wire(nand_out(1), nand_in(3, 0)));
        c.push(wire(nand_out(2), nand_in(3, 1)));
        c.push(wire(nand_out(3), chip_out(0)));
        proof {
            assert(c@ =~= xor_wiring());
        }
        self.library.push(nand_chip("XOR", names2("A", "B"), names1("OUT"), 4, c));
        // 3: NOT (1 NAND)
        let mut c: Vec<Connection> = Vec::new();
        c.push(wire(chip_in(0), nand_in(0, 0)));
        c.push(wire(chip_in(0), nand_in(0, 1)));
        c.push(wire(nand_out(0), chip_out(0)));
        proof {
            assert(c@ =~= not_wiring());
        }
        self.library.push(nand_chip("NOT", names1("IN"), names1("OUT"), 1, c));
        // 4: NOR (4 NANDs)
        let mut c: Vec<Connection> = Vec::new();
        c.push(wire(chip_in(0), nand_in(0, 0)));
        c.push(wire(chip_in(0), nand_in(0, 1)));
        c.push(wire(chip_in(1), nand_in(1, 0)));
        c.push(wire(chip_in(1), nand_in(1, 1)));
        c.push(wire(nand_out(0), nand_in(2, 0)));
        c.push(wire(nand_out(1), nand_in(2, 1)));
        c.push(wire(nand_out(2), nand_in(3, 0)));
        c.push(wire(nand_out(2), nand_in(3, 1)));
        c.push(wire(nand_out(3), chip_out(0)));
        proof {
            assert(c@ =~= nor_wiring());
        }
        self.library.push(nand_chip("NOR", names2("A", "B"), names1("OUT"), 4, c));
        // 5: XNOR (5 NANDs)
        let mut c: Vec<Connection> = Vec::new();
        c.push(wire(chip_in(0), nand_in(0, 0)));
        c.push(wire(chip_in(0), nand_in(1, 0)));
        c.push(wire(chip_in(1), nand_in(0, 1)));
        c.push(wire(chip_in(1), nand_in(2, 1)));
        c.push(wire(nand_out(0), nand_in(1, 1)));
        c.push(wire(nand_out(0), nand_in(2, 0)));
        c.push(wire(nand_out(1), nand_in(3, 0)));
        c.push(wire(nand_out(2), nand_in(3, 1)));
        c.push(wire(nand_out(3), nand_in(4, 0)));
        c.push(wire(nand_out(3), nand_in(4, 1)));
        c.push(wire(nand_out(4), chip_out(0)));
        proof {
            assert(c@ =~= xnor_wiring());
        }
        self.library.push(nand_chip("XNOR", names2("A", "B"), names1("OUT"), 5, c));
        proof {
            let lib = self.library@;
            let n0 = lib0.len();
            assert(lib.take(n0 as int) =~= lib0);
            if n0 == 0 {
                lemma_nand_library_ok(lib);
            }
        }
    }
}

/// A library of NAND-only chips compiles.
proof fn lemma_nand_library_ok(lib: Seq<ChipBlueprint>)
    requires
        forall|b: int| 0 <= b < lib.len() ==> nand_chip_ok(#[trigger] lib[b]),
    ensures
        library_ok(lib),
{
    let r = Seq::new(lib.len(), |b: int| 0nat);
    assert forall|b: int, c: int| 0 <= b < lib.len() && 0 <= c < lib[b].components@.len() implies match #[trigger] lib[b].components@[c].component_type {
        ComponentType::SubChip(s) => s < lib.len() ==> r[s as int] < r[b],
        _ => true,
    } by {
        assert(nand_chip_ok(lib[b]));
        assert(lib[b].components@[c] == nand_component());
    }
    assert(ranks_sub_chips(lib, r));
    assert(acyclic(lib));
    assert forall|b: int| 0 <= b < lib.len() implies sources_fit(lib, #[trigger] lib[b]) by {
        let bp = lib[b];
        assert(nand_chip_ok(bp));
        assert forall|k: int| 0 <= k < bp.connections@.len() implies match #[trigger] bp.connections@[k].source {
            SourcePort::ComponentOutput { component_idx: c, port_idx: p } => {
                &&& c < bp.components@.len()
                &&& match bp.components@[c as int].component_type {
                    ComponentType::SubChip(s) => s < lib.len() ==> p < lib[s as int].outputs,
                    _ => true,
                }
            },
            _ => true,
        } by {
            match bp.connections@[k].source {
                SourcePort::ComponentOutput { component_idx: c, port_idx: p } => {
                    assert(bp.components@[c as int] == nand_component());
                },
                _ => {},
            }
        }
    }
}

} // verus!
