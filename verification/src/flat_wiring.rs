use vstd::prelude::*;

use crate::compiler::{
    all_wires, alloc_components, comp_input, comp_wires, connect_all, driver, instantiate, lemma_connect_all_len,
    lemma_source_feeding_in, nand_ports, port_wires, source_feeding, sources_fit, walk_step, FlatState,
    InstError, PortsModel, WalkStep,
};
use crate::simulator::{lemma_add_gate, lemma_connect, lemma_run, unconnected_gate, SimModel};
use crate::types::{ChipBlueprint, ComponentType, GateType, OutputSource, SourcePort};

verus! {

// ---------------------------------------------------------------------------
// What a chip of NAND gates compiles to
// ---------------------------------------------------------------------------

/// A blueprint whose components are all NAND gates.
pub open spec fn nand_only(bp: ChipBlueprint) -> bool {
    forall|c: int| 0 <= c < bp.components@.len() ==> #[trigger] bp.components@[c].component_type == ComponentType::Nand
}

/// The component whose output feeds input `q` of component `c` through the
/// first connection into that input, if such a connection reads a component.
pub open spec fn wired_from(bp: ChipBlueprint, c: nat, q: nat) -> Option<usize> {
    match source_feeding(bp.connections@, comp_input(c, q)) {
        Some(SourcePort::ComponentOutput { component_idx: s, port_idx: _ }) => Some(s),
        _ => None,
    }
}

/// `o` moved up by `n0`.
pub open spec fn shifted_by(o: Option<usize>, n0: nat) -> Option<usize> {
    match o {
        Some(s) => Some((n0 + s) as usize),
        None => None,
    }
}

/// The source that the last of the connections `ws` into input A (`is_a`)
/// or input B of gate `t` names, or `d` where none does.
pub open spec fn last_source(ws: Seq<(usize, usize, u8)>, t: usize, is_a: bool, d: Option<usize>) -> Option<usize>
    decreases ws.len(),
{
    if ws.len() == 0 {
        d
    } else if ws.last().1 == t && (ws.last().2 == 0) == is_a {
        Some(ws.last().0)
    } else {
        last_source(ws.drop_last(), t, is_a, d)
    }
}

proof fn lemma_last_source_single(w: (usize, usize, u8), t: usize, is_a: bool, d: Option<usize>)
    ensures
        last_source(seq![w], t, is_a, d) == if w.1 == t && (w.2 == 0) == is_a {
            Some(w.0)
        } else {
            d
        },
        last_source(Seq::<(usize, usize, u8)>::empty(), t, is_a, d) == d,
{
    assert(seq![w].last() == w);
    assert(seq![w].drop_last() =~= Seq::<(usize, usize, u8)>::empty());
}

proof fn lemma_last_source_untargeted(ws: Seq<(usize, usize, u8)>, t: usize, is_a: bool, d: Option<usize>)
    requires
        forall|w: int| 0 <= w < ws.len() ==> (#[trigger] ws[w]).1 != t,
    ensures
        last_source(ws, t, is_a, d) == d,
    decreases ws.len(),
{
    if ws.len() > 0 {
        assert(ws.last() == ws[ws.len() - 1]);
        assert forall|w: int| 0 <= w < ws.drop_last().len() implies (#[trigger] ws.drop_last()[w]).1 != t by {
            assert(ws.drop_last()[w] == ws[w]);
        }
        lemma_last_source_untargeted(ws.drop_last(), t, is_a, d);
    }
}

proof fn lemma_last_source_concat(a: Seq<(usize, usize, u8)>, b: Seq<(usize, usize, u8)>, t: usize, is_a: bool, d: Option<usize>)
    ensures
        last_source(a + b, t, is_a, d) == last_source(b, t, is_a, last_source(a, t, is_a, d)),
    decreases b.len(),
{
    if b.len() == 0 {
        assert(a + b =~= a);
    } else {
        assert((a + b).drop_last() =~= a + b.drop_last());
        assert((a + b).last() == b.last());
        lemma_last_source_concat(a, b.drop_last(), t, is_a, d);
    }
}

/// Making connections changes only the inputs of the gates they target:
/// each input is driven by the last connection into it.
proof fn lemma_connect_all_gates(m: SimModel, ws: Seq<(usize, usize, u8)>, t: usize)
    requires
        t < m.len(),
        m.in_queue.len() == m.len(),
        forall|k: int| 0 <= k < ws.len() ==> (#[trigger] ws[k]).1 < m.len(),
    ensures
        connect_all(m, ws).len() == m.len(),
        connect_all(m, ws).in_queue.len() == m.len(),
        connect_all(m, ws).gates[t as int].gate_type == m.gates[t as int].gate_type,
        connect_all(m, ws).gates[t as int].input_a_source == last_source(ws, t, true, m.gates[t as int].input_a_source),
        connect_all(m, ws).gates[t as int].input_b_source == last_source(ws, t, false, m.gates[t as int].input_b_source),
    decreases ws.len(),
{
    if ws.len() > 0 {
        let w = ws.last();
        assert(w == ws[ws.len() - 1]);
        lemma_connect_all_gates(m, ws.drop_last(), t);
        let p = connect_all(m, ws.drop_last());
        assert(p.in_queue.len() == p.len());
        assert(w.1 < m.len());
        let q = SimModel {
            gates: p.gates.update(w.1 as int, crate::simulator::with_input(p.gates[w.1 as int], w.2, w.0)),
            deps: p.deps.update(w.0 as int, p.deps[w.0 as int].push(w.1)),
            ..p
        };
        assert(connect_all(m, ws) == q.enqueue(w.1));
        assert(q.enqueue(w.1).gates == q.gates);
    }
}

/// Allocating the components of a NAND chip gives component `c` the fresh
/// NAND gate `n0 + c`.
#[verifier::rlimit(30)]
proof fn lemma_nand_alloc(lib: Seq<ChipBlueprint>, stack: Seq<usize>, idx: usize, path: Seq<usize>, st: FlatState, k: nat)
    requires
        idx < lib.len(),
        nand_only(lib[idx as int]),
        k <= lib[idx as int].components@.len(),
        st.sim.wf(),
        st.sim.len() + lib[idx as int].components@.len() <= usize::MAX,
    ensures
        alloc_components(lib, stack, idx, path, st, k) is Some,
        ({
            let (s, ports, err) = alloc_components(lib, stack, idx, path, st, k).unwrap();
            &&& err is None
            &&& s.sim.wf()
            &&& st.sim.settled_except_queued() ==> s.sim.settled_except_queued()
            &&& ports == Seq::new(k, |c: int| nand_ports((st.sim.len() + c) as usize))
            &&& s.sim.len() == st.sim.len() + k
            &&& s.sim.in_queue.len() == s.sim.len()
            &&& forall|g: int| 0 <= g < st.sim.len() ==> #[trigger] s.sim.gates[g] == st.sim.gates[g]
            &&& forall|c: int| 0 <= c < k ==> #[trigger] s.sim.gates[st.sim.len() + c] == unconnected_gate(GateType::Nand)
            &&& forall|c: int| 0 <= c < k ==> #[trigger] s.inst.contains_key((path, c as usize))
                && s.inst[(path, c as usize)] == st.sim.len() + c
        }),
    decreases k,
{
    if k > 0 {
        lemma_nand_alloc(lib, stack, idx, path, st, (k - 1) as nat);
        let (s, ports, err) = alloc_components(lib, stack, idx, path, st, (k - 1) as nat).unwrap();
        let c = (k - 1) as usize;
        assert(lib[idx as int].components@[c as int].component_type == ComponentType::Nand);
        let g = s.sim.len() as usize;
        lemma_add_gate(s.sim, GateType::Nand);
        assert(alloc_components(lib, stack, idx, path, st, k) == Some((
            FlatState { sim: s.sim.add_gate(GateType::Nand), inst: s.inst.insert((path, c), g), ..s },
            ports.push(nand_ports(g)),
            None::<InstError>,
        )));
        let (s2, ports2, err2) = alloc_components(lib, stack, idx, path, st, k).unwrap();
        assert(s2.sim == s.sim.add_gate(GateType::Nand));
        assert(s2.sim.len() == st.sim.len() + k);
        assert(ports2 =~= Seq::new(k, |c: int| nand_ports((st.sim.len() + c) as usize)));
        assert forall|g: int| 0 <= g < st.sim.len() implies #[trigger] s2.sim.gates[g] == st.sim.gates[g] by {
            assert(s2.sim.gates[g] == s.sim.gates[g]);
        }
        assert forall|j: int| 0 <= j < k implies #[trigger] s2.sim.gates[st.sim.len() + j] == unconnected_gate(GateType::Nand) by {
            if j < k - 1 {
                assert(s2.sim.gates[st.sim.len() + j] == s.sim.gates[st.sim.len() + j]);
            }
        }
        assert(s2.inst == s.inst.insert((path, c), g));
        assert forall|j: int| 0 <= j < k implies #[trigger] s2.inst.contains_key((path, j as usize))
            && s2.inst[(path, j as usize)] == st.sim.len() + j by {
            if j < k - 1 {
                assert((path, j as usize) != (path, c));
                assert(s.inst.contains_key((path, j as usize)));
            } else {
                assert(j as usize == c);
            }
        }
    }
}

/// In a NAND chip, the driver of input `q` of component `c` is the NAND
/// of the component that the first connection into it reads, if any.
proof fn lemma_nand_driver(bp: ChipBlueprint, lib: Seq<ChipBlueprint>, ports: Seq<PortsModel>, n0: nat, c: nat, q: nat)
    requires
        nand_only(bp),
        sources_fit(lib, bp),
        ports == Seq::new(bp.components@.len(), |j: int| nand_ports((n0 + j) as usize)),
        n0 + bp.components@.len() <= usize::MAX,
    ensures
        driver(bp, ports, comp_input(c, q)) matches OutputSource::DrivenByGate(g) ==> shifted_by(wired_from(bp, c, q), n0) == Some(g),
        !(driver(bp, ports, comp_input(c, q)) is DrivenByGate) ==> wired_from(bp, c, q) is None,
        wired_from(bp, c, q) matches Some(s) ==> s < bp.components@.len(),
{
    let t = comp_input(c, q);
    lemma_source_feeding_in(bp.connections@, t);
    match source_feeding(bp.connections@, t) {
        Some(SourcePort::ComponentOutput { component_idx: s, port_idx: p }) => {
            let k = choose|k: int|
                0 <= k < bp.connections@.len() && bp.connections@[k].source == SourcePort::ComponentOutput {
                    component_idx: s,
                    port_idx: p,
                };
            assert(s < bp.components@.len());
            assert(bp.components@[s as int].component_type == ComponentType::Nand);
            assert(ports[s as int] == nand_ports((n0 + s) as usize));
            assert(walk_step(bp, ports, t) == WalkStep::Done(OutputSource::DrivenByGate((n0 + s) as usize)));
        },
        _ => {},
    }
}

/// The connections made for the first `k` components of a NAND chip drive
/// input A (or B) of NAND `n0 + c` from the NAND of the component wired to
/// it, for the components already wired, and touch nothing else.
proof fn lemma_nand_wires(bp: ChipBlueprint, lib: Seq<ChipBlueprint>, ports: Seq<PortsModel>, n0: nat, k: nat, t: usize, is_a: bool)
    requires
        nand_only(bp),
        sources_fit(lib, bp),
        ports == Seq::new(bp.components@.len(), |j: int| nand_ports((n0 + j) as usize)),
        n0 + bp.components@.len() <= usize::MAX,
        k <= bp.components@.len(),
    ensures
        last_source(all_wires(lib, bp, ports, k), t, is_a, None) == if n0 <= t < n0 + k {
            shifted_by(wired_from(bp, (t - n0) as nat, if is_a { 0 } else { 1 }), n0)
        } else {
            None
        },
        forall|w: int| 0 <= w < all_wires(lib, bp, ports, k).len() ==> n0 <= (#[trigger] all_wires(lib, bp, ports, k)[w]).1 < n0 + k,
        forall|w: int| 0 <= w < all_wires(lib, bp, ports, k).len() ==> (#[trigger] all_wires(lib, bp, ports, k)[w]).0 < n0 + bp.components@.len()
            && all_wires(lib, bp, ports, k)[w].2 <= 1,
    decreases k,
{
    if k > 0 {
        let c = (k - 1) as nat;
        lemma_nand_wires(bp, lib, ports, n0, c, t, is_a);
        let before = all_wires(lib, bp, ports, c);
        assert(bp.components@[c as int].component_type == ComponentType::Nand);
        let g = (n0 + c) as usize;
        assert(ports[c as int] == nand_ports(g));
        lemma_nand_driver(bp, lib, ports, n0, c, 0);
        lemma_nand_driver(bp, lib, ports, n0, c, 1);
        let p0 = port_wires(bp, ports, c, 0);
        let p1 = port_wires(bp, ports, c, 1);
        assert(comp_wires(bp, ports, c, 2) =~= p0 + p1) by {
            assert(comp_wires(bp, ports, c, 0) == Seq::<(usize, usize, u8)>::empty());
            assert(comp_wires(bp, ports, c, 1) =~= p0);
        }
        assert(all_wires(lib, bp, ports, k) == before + (p0 + p1));
        lemma_last_source_concat(before, p0 + p1, t, is_a, None);
        lemma_last_source_concat(p0, p1, t, is_a, last_source(before, t, is_a, None));
        let d0 = last_source(before, t, is_a, None);
        let d1 = last_source(p0, t, is_a, d0);
        match driver(bp, ports, comp_input(c, 0)) {
            OutputSource::DrivenByGate(src) => {
                assert(p0 =~= seq![(src, g, 0u8)]);
                lemma_last_source_single((src, g, 0u8), t, is_a, d0);
            },
            _ => {
                assert(p0 =~= Seq::<(usize, usize, u8)>::empty());
                lemma_last_source_single((0, 0, 0u8), t, is_a, d0);
            },
        }
        match driver(bp, ports, comp_input(c, 1)) {
            OutputSource::DrivenByGate(src) => {
                assert(p1 =~= seq![(src, g, 1u8)]);
                lemma_last_source_single((src, g, 1u8), t, is_a, d1);
            },
            _ => {
                assert(p1 =~= Seq::<(usize, usize, u8)>::empty());
                lemma_last_source_single((0, 0, 0u8), t, is_a, d1);
            },
        }
        assert forall|w: int| 0 <= w < all_wires(lib, bp, ports, k).len() implies (#[trigger] all_wires(
            lib,
            bp,
            ports,
            k,
        )[w]).1 < n0 + k && n0 <= all_wires(lib, bp, ports, k)[w].1 && all_wires(lib, bp, ports, k)[w].0 < n0
            + bp.components@.len() && all_wires(lib, bp, ports, k)[w].2 <= 1 by {
            if w >= before.len() {
                let r = w - before.len();
                assert(all_wires(lib, bp, ports, k)[w] == (p0 + p1)[r]);
            } else {
                assert(all_wires(lib, bp, ports, k)[w] == before[w]);
            }
        }
    }
}

/// A chip of NAND gates compiles to one fresh NAND gate per component,
/// wired as its connections say: input A (B) of the NAND made for
/// component `c` is driven by the NAND made for the component that the
/// first connection into input 0 (1) of `c` reads, and floats where that
/// connection reads a chip input or there is none. Gates that were there
/// before are left as they were.
pub proof fn law_nand_chip_compiles_to_its_wiring(lib: Seq<ChipBlueprint>, idx: usize, path: Seq<usize>, st: FlatState)
    requires
        idx < lib.len(),
        nand_only(lib[idx as int]),
        sources_fit(lib, lib[idx as int]),
        st.sim.wf(),
        st.sim.len() + lib[idx as int].components@.len() <= usize::MAX,
    ensures
        ({
            let (st2, r) = instantiate(lib, idx, path, st);
            let n0 = st.sim.len();
            let bp = lib[idx as int];
            &&& r is Ok
            &&& st2.sim.len() == n0 + bp.components@.len()
            &&& forall|g: int| 0 <= g < n0 ==> #[trigger] st2.sim.gates[g] == st.sim.gates[g]
            &&& forall|c: int|
                0 <= c < bp.components@.len() ==> {
                    &&& (#[trigger] st2.sim.gates[n0 + c]).gate_type == GateType::Nand
                    &&& st2.sim.gates[n0 + c].input_a_source == shifted_by(wired_from(bp, c as nat, 0), n0)
                    &&& st2.sim.gates[n0 + c].input_b_source == shifted_by(wired_from(bp, c as nat, 1), n0)
                    &&& st2.inst[(path, c as usize)] == n0 + c
                }
        }),
{
    let stack = Seq::<usize>::empty().push(idx);
    assert(!Seq::<usize>::empty().contains(idx));
    let bp = lib[idx as int];
    let n = bp.components@.len();
    let n0 = st.sim.len();
    lemma_nand_alloc(lib, stack, idx, path, st, n);
    let (s1, ports, err) = alloc_components(lib, stack, idx, path, st, n).unwrap();
    let ws = all_wires(lib, bp, ports, n);
    lemma_nand_wires(bp, lib, ports, n0, n, 0, true);
    assert(err is None);
    let (st2, r) = instantiate(lib, idx, path, st);
    assert(st2.sim == connect_all(s1.sim, ws));
    lemma_connect_all_len(s1.sim, ws);
    assert forall|g: int| 0 <= g < n0 implies #[trigger] st2.sim.gates[g] == st.sim.gates[g] by {
        lemma_connect_all_gates(s1.sim, ws, g as usize);
        lemma_last_source_untargeted(ws, g as usize, true, s1.sim.gates[g].input_a_source);
        lemma_last_source_untargeted(ws, g as usize, false, s1.sim.gates[g].input_b_source);
        assert(s1.sim.gates[g] == st.sim.gates[g]);
    }
    assert forall|c: int| 0 <= c < n implies {
        &&& (#[trigger] st2.sim.gates[n0 + c]).gate_type == GateType::Nand
        &&& st2.sim.gates[n0 + c].input_a_source == shifted_by(wired_from(bp, c as nat, 0), n0)
        &&& st2.sim.gates[n0 + c].input_b_source == shifted_by(wired_from(bp, c as nat, 1), n0)
        &&& st2.inst[(path, c as usize)] == n0 + c
    } by {
        lemma_connect_all_gates(s1.sim, ws, (n0 + c) as usize);
        lemma_nand_wires(bp, lib, ports, n0, n, (n0 + c) as usize, true);
        lemma_nand_wires(bp, lib, ports, n0, n, (n0 + c) as usize, false);
        assert(s1.sim.gates[n0 + c] == unconnected_gate(GateType::Nand));
        assert(s1.inst.contains_key((path, c as usize)));
        assert(st2.inst == s1.inst);
    }
}

/// Making connections that name gates of the model keeps it well formed,
/// and keeps every unqueued gate settled.
proof fn lemma_connect_all_keeps(m: SimModel, ws: Seq<(usize, usize, u8)>)
    requires
        m.wf(),
        forall|k: int| 0 <= k < ws.len() ==> (#[trigger] ws[k]).0 < m.len() && ws[k].1 < m.len() && ws[k].2 <= 1,
    ensures
        connect_all(m, ws).wf(),
        m.settled_except_queued() ==> connect_all(m, ws).settled_except_queued(),
    decreases ws.len(),
{
    if ws.len() > 0 {
        let w = ws.last();
        assert(w == ws[ws.len() - 1]);
        assert forall|k: int| 0 <= k < ws.drop_last().len() implies (#[trigger] ws.drop_last()[k]).0 < m.len()
            && ws.drop_last()[k].1 < m.len() && ws.drop_last()[k].2 <= 1 by {
            assert(ws.drop_last()[k] == ws[k]);
        }
        lemma_connect_all_keeps(m, ws.drop_last());
        assert forall|k: int| 0 <= k < ws.drop_last().len() implies (#[trigger] ws.drop_last()[k]).1 < m.len() by {}
        lemma_connect_all_len(m, ws.drop_last());
        lemma_connect(connect_all(m, ws.drop_last()), w.0, w.1, w.2);
    }
}

/// The value that an input reads in `r`: that of the NAND made for the
/// component wired to it, or 0 where it floats.
pub open spec fn wired_value(r: SimModel, n0: nat, o: Option<usize>) -> bool {
    match o {
        Some(s) => r.states[n0 + s],
        None => false,
    }
}

/// A compiled chip of NAND gates computes what its wiring says: started
/// from a settled network, once the event queue has run empty, the NAND
/// made for each component shows the NAND of the values on the components
/// wired to its two inputs (a floating input reads 0).
pub proof fn law_settled_nand_chip_follows_its_wiring(
    lib: Seq<ChipBlueprint>,
    idx: usize,
    path: Seq<usize>,
    st: FlatState,
    n: nat,
)
    requires
        idx < lib.len(),
        nand_only(lib[idx as int]),
        sources_fit(lib, lib[idx as int]),
        st.sim.wf(),
        st.sim.settled_except_queued(),
        st.sim.len() + lib[idx as int].components@.len() <= usize::MAX,
        instantiate(lib, idx, path, st).0.sim.run(n).queue.len() == 0,
    ensures
        ({
            let r = instantiate(lib, idx, path, st).0.sim.run(n);
            let n0 = st.sim.len();
            let bp = lib[idx as int];
            forall|c: int|
                0 <= c < bp.components@.len() ==> #[trigger] r.states[n0 + c] == !(wired_value(
                    r,
                    n0,
                    wired_from(bp, c as nat, 0),
                ) && wired_value(r, n0, wired_from(bp, c as nat, 1)))
        }),
{
    let stack = Seq::<usize>::empty().push(idx);
    assert(!Seq::<usize>::empty().contains(idx));
    let bp = lib[idx as int];
    let nc = bp.components@.len();
    let n0 = st.sim.len();
    law_nand_chip_compiles_to_its_wiring(lib, idx, path, st);
    lemma_nand_alloc(lib, stack, idx, path, st, nc);
    let (s1, ports, err) = alloc_components(lib, stack, idx, path, st, nc).unwrap();
    let ws = all_wires(lib, bp, ports, nc);
    lemma_nand_wires(bp, lib, ports, n0, nc, 0, true);
    assert forall|k: int| 0 <= k < ws.len() implies (#[trigger] ws[k]).0 < s1.sim.len() && ws[k].1 < s1.sim.len()
        && ws[k].2 <= 1 by {}
    lemma_connect_all_keeps(s1.sim, ws);
    let m = instantiate(lib, idx, path, st).0.sim;
    assert(m == connect_all(s1.sim, ws));
    lemma_run(m, n);
    let r = m.run(n);
    assert forall|c: int| 0 <= c < nc implies #[trigger] r.states[n0 + c] == !(wired_value(
        r,
        n0,
        wired_from(bp, c as nat, 0),
    ) && wired_value(r, n0, wired_from(bp, c as nat, 1))) by {
        let g = n0 + c;
        assert(!r.in_queue[g]) by {
            if r.in_queue[g] {
                assert(r.queue.contains(g as usize));
            }
        }
        assert(r.states[g] == r.eval(g));
        assert(r.gates[g] == m.gates[g]);
        assert(m.gates[n0 + c].gate_type == GateType::Nand);
        lemma_nand_driver(bp, lib, ports, n0, c as nat, 0);
        lemma_nand_driver(bp, lib, ports, n0, c as nat, 1);
        assert(r.source_value(m.gates[g].input_a_source) == wired_value(r, n0, wired_from(bp, c as nat, 0)));
        assert(r.source_value(m.gates[g].input_b_source) == wired_value(r, n0, wired_from(bp, c as nat, 1)));
    }
}

} // verus!
