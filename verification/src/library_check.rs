use vstd::prelude::*;
use vstd::slice::slice_to_vec;

use crate::compiler::{acyclic, compiles_from, lemma_library_ok_compiles_from, library_ok, ranks_sub_chips, sources_fit};
use crate::types::{ChipBlueprint, ComponentType, SourcePort};

verus! {

/// Every sub-chip of the library that blueprint `b` uses is marked in `done`.
pub open spec fn uses_done(lib: Seq<ChipBlueprint>, b: int, done: Seq<bool>) -> bool {
    forall|c: int|
        0 <= c < lib[b].components@.len() ==> match #[trigger] lib[b].components@[c].component_type {
            ComponentType::SubChip(s) => s < lib.len() ==> done[s as int],
            _ => true,
        }
}

/// Every sub-chip of the library that a marked blueprint uses is marked, at
/// a lower level.
pub open spec fn levels_ok(lib: Seq<ChipBlueprint>, done: Seq<bool>, level: Seq<usize>) -> bool {
    forall|x: int, c: int|
        0 <= x < lib.len() && done[x] && 0 <= c < lib[x].components@.len() ==> match #[trigger] lib[x].components@[c].component_type {
            ComponentType::SubChip(s) => s < lib.len() ==> done[s as int] && level[s as int] < level[x],
            _ => true,
        }
}

/// The number of marked entries.
pub open spec fn count_true(s: Seq<bool>) -> nat
    decreases s.len(),
{
    if s.len() == 0 {
        0
    } else {
        count_true(s.drop_last()) + if s.last() {
            1nat
        } else {
            0nat
        }
    }
}

proof fn lemma_count_true_bound(s: Seq<bool>)
    ensures
        count_true(s) <= s.len(),
    decreases s.len(),
{
    if s.len() > 0 {
        lemma_count_true_bound(s.drop_last());
    }
}

proof fn lemma_count_true_update(s: Seq<bool>, i: int)
    requires
        0 <= i < s.len(),
        !s[i],
    ensures
        count_true(s.update(i, true)) == count_true(s) + 1,
    decreases s.len(),
{
    let t = s.update(i, true);
    if i == s.len() - 1 {
        assert(t.drop_last() =~= s.drop_last());
    } else {
        assert(t.drop_last() =~= s.drop_last().update(i, true));
        lemma_count_true_update(s.drop_last(), i);
    }
}

/// No ranking exists when every unmarked blueprint uses an unmarked one:
/// no unmarked blueprint can have a rank of `v` or below.
proof fn lemma_no_low_rank(lib: Seq<ChipBlueprint>, done: Seq<bool>, r: Seq<nat>, v: nat, b: int)
    requires
        ranks_sub_chips(lib, r),
        done.len() == lib.len(),
        forall|x: int| 0 <= x < lib.len() && !done[x] ==> !#[trigger] uses_done(lib, x, done),
        0 <= b < lib.len(),
        !done[b],
    ensures
        r[b] > v,
    decreases v,
{
    assert(!uses_done(lib, b, done));
    let c = choose|c: int|
        0 <= c < lib[b].components@.len() && !match #[trigger] lib[b].components@[c].component_type {
            ComponentType::SubChip(s) => s < lib.len() ==> done[s as int],
            _ => true,
        };
    if let ComponentType::SubChip(s) = lib[b].components@[c].component_type {
        assert(r[s as int] < r[b]);
        if v > 0 {
            lemma_no_low_rank(lib, done, r, (v - 1) as nat, s as int);
        }
    }
}

/// Whether every in-library sub-chip that blueprint `b` uses is marked.
fn ready(lib: &[ChipBlueprint], b: usize, done: &Vec<bool>) -> (r: bool)
    requires
        b < lib@.len(),
        done@.len() == lib@.len(),
    ensures
        r == uses_done(lib@, b as int, done@),
{
    let bp = &lib[b];
    let n = bp.components.len();
    let mut c: usize = 0;
    while c < n
        invariant
            n == lib@[b as int].components@.len(),
            *bp == lib@[b as int],
            done@.len() == lib@.len(),
            c <= n,
            forall|j: int| 0 <= j < c ==> match #[trigger] lib@[b as int].components@[j].component_type {
                ComponentType::SubChip(s) => s < lib@.len() ==> done@[s as int],
                _ => true,
            },
        decreases n - c,
    {
        if let ComponentType::SubChip(s) = bp.components[c].component_type {
            if s < lib.len() && !done[s] {
                return false;
            }
        }
        c += 1;
    }
    true
}

/// Whether no blueprint of the library contains itself, directly or through
/// other blueprints: blueprints are marked level by level, each once all the
/// sub-chips it uses are marked; the library is acyclic exactly when every
/// blueprint gets marked.
fn check_acyclic(lib: &[ChipBlueprint]) -> (ok: bool)
    ensures
        ok == acyclic(lib@),
{
    let n = lib.len();
    let mut done: Vec<bool> = Vec::new();
    let mut level: Vec<usize> = Vec::new();
    let mut i: usize = 0;
    while i < n
        invariant
            n == lib@.len(),
            i <= n,
            done@.len() == i,
            level@.len() == i,
            forall|j: int| 0 <= j < i ==> !#[trigger] done@[j],
        decreases n - i,
    {
        done.push(false);
        level.push(0);
        i += 1;
    }
    proof {
        assert(done@ =~= Seq::new(n as nat, |j: int| false));
        lemma_count_false(n as nat);
    }
    let mut count: usize = 0;
    let mut round: usize = 0;
    loop
        invariant
            n == lib@.len(),
            done@.len() == n,
            level@.len() == n,
            count == count_true(done@),
            round <= count,
            forall|x: int| 0 <= x < n && done@[x] ==> #[trigger] level@[x] < round,
            levels_ok(lib@, done@, level@),
        ensures
            done@.len() == n,
            level@.len() == n,
            levels_ok(lib@, done@, level@),
            forall|x: int| 0 <= x < n && !done@[x] ==> !#[trigger] uses_done(lib@, x, done@),
        decreases n - count,
    {
        proof {
            lemma_count_true_bound(done@);
        }
        let prev = slice_to_vec(done.as_slice());
        let ghost count0 = count;
        let mut changed = false;
        let mut b: usize = 0;
        while b < n
            invariant
                n == lib@.len(),
                prev@.len() == n,
                done@.len() == n,
                level@.len() == n,
                b <= n,
                count == count_true(done@),
                count0 == count_true(prev@),
                count0 <= count,
                round <= count0,
                changed ==> count0 < count,
                !changed ==> done@ == prev@,
                forall|x: int| 0 <= x < n && prev@[x] ==> #[trigger] done@[x],
                forall|x: int| 0 <= x < n && prev@[x] ==> #[trigger] level@[x] < round,
                forall|x: int| 0 <= x < n && done@[x] ==> #[trigger] level@[x] <= round,
                forall|x: int| 0 <= x < n && done@[x] && !prev@[x] ==> uses_done(lib@, x, prev@) && #[trigger] level@[x] == round,
                forall|x: int| b <= x < n ==> #[trigger] done@[x] == prev@[x],
                !changed ==> forall|x: int| 0 <= x < b && !prev@[x] ==> !#[trigger] uses_done(lib@, x, prev@),
                levels_ok(lib@, done@, level@),
            decreases n - b,
        {
            if !prev[b] && ready(lib, b, &prev) {
                proof {
                    lemma_count_true_update(done@, b as int);
                    lemma_count_true_bound(done@.update(b as int, true));
                }
                let ghost d0 = done@;
                let ghost l0 = level@;
                done.set(b, true);
                level.set(b, round);
                count += 1;
                changed = true;
                proof {
                    assert forall|x: int, c: int|
                        0 <= x < lib@.len() && done@[x] && 0 <= c < lib@[x].components@.len() implies match #[trigger] lib@[x].components@[c].component_type {
                            ComponentType::SubChip(s) => s < lib@.len() ==> done@[s as int] && level@[s as int] < level@[x],
                            _ => true,
                        } by {
                        if let ComponentType::SubChip(s) = lib@[x].components@[c].component_type {
                            if s < lib@.len() {
                                if x == b {
                                    assert(uses_done(lib@, b as int, prev@));
                                    assert(prev@[s as int]);
                                } else {
                                    assert(d0[x]);
                                    assert(d0[s as int] && l0[s as int] < l0[x]);
                                    assert(s != b);
                                }
                            }
                        }
                    }
                }
            }
            b += 1;
        }
        if !changed {
            break;
        }
        proof {
            lemma_count_true_bound(done@);
        }
        round += 1;
    }
    let mut all = true;
    let mut k: usize = 0;
    while k < n
        invariant
            n == lib@.len(),
            done@.len() == n,
            k <= n,
            all == forall|x: int| 0 <= x < k ==> #[trigger] done@[x],
        decreases n - k,
    {
        if !done[k] {
            all = false;
        }
        k += 1;
    }
    proof {
        if all {
            let r = Seq::new(n as nat, |x: int| level@[x] as nat);
            assert forall|b: int, c: int| 0 <= b < lib@.len() && 0 <= c < lib@[b].components@.len() implies match #[trigger] lib@[b].components@[c].component_type {
                ComponentType::SubChip(s) => s < lib@.len() ==> r[s as int] < r[b],
                _ => true,
            } by {
                assert(done@[b]);
            }
            assert(ranks_sub_chips(lib@, r));
        } else {
            let b0 = choose|x: int| 0 <= x < n && !done@[x];
            if acyclic(lib@) {
                let r = choose|r: Seq<nat>| ranks_sub_chips(lib@, r);
                lemma_no_low_rank(lib@, done@, r, r[b0], b0);
            }
        }
    }
    all
}

proof fn lemma_count_false(n: nat)
    ensures
        count_true(Seq::new(n, |j: int| false)) == 0,
    decreases n,
{
    if n > 0 {
        assert(Seq::new(n, |j: int| false).drop_last() =~= Seq::new((n - 1) as nat, |j: int| false));
        lemma_count_false((n - 1) as nat);
    }
}

/// Whether every connection of `bp` that reads a component output names a
/// component of `bp`, and an output that the component has when it is a
/// sub-chip of the library.
fn check_sources(lib: &[ChipBlueprint], bp: &ChipBlueprint) -> (ok: bool)
    ensures
        ok == sources_fit(lib@, *bp),
{
    let n = bp.connections.len();
    let mut k: usize = 0;
    while k < n
        invariant
            n == bp.connections@.len(),
            k <= n,
            forall|j: int|
                0 <= j < k ==> match #[trigger] bp.connections@[j].source {
                    SourcePort::ComponentOutput { component_idx: c, port_idx: p } => {
                        &&& c < bp.components@.len()
                        &&& match bp.components@[c as int].component_type {
                            ComponentType::SubChip(s) => s < lib@.len() ==> p < lib@[s as int].outputs,
                            _ => true,
                        }
                    },
                    _ => true,
                },
        decreases n - k,
    {
        if let SourcePort::ComponentOutput { component_idx, port_idx } = bp.connections[k].source {
            if component_idx >= bp.components.len() {
                return false;
            }
            if let ComponentType::SubChip(s) = bp.components[component_idx].component_type {
                if s < lib.len() && port_idx >= lib[s].outputs {
                    return false;
                }
            }
        }
        k += 1;
    }
    true
}

/// Whether the whole library can be compiled: it is acyclic, and its
/// connections name existing components and outputs. A library that passes
/// compiles from each of its blueprints.
pub fn check_library(library: &[ChipBlueprint]) -> (ok: bool)
    ensures
        ok == library_ok(library@),
        ok ==> forall|i: usize| i < library@.len() ==> #[trigger] compiles_from(library@, i),
{
    let ok = check_whole(library);
    proof {
        if ok {
            assert forall|i: usize| i < library@.len() implies #[trigger] compiles_from(library@, i) by {
                lemma_library_ok_compiles_from(library@, i);
            }
        }
    }
    ok
}

fn check_whole(library: &[ChipBlueprint]) -> (ok: bool)
    ensures
        ok == library_ok(library@),
{
    let n = library.len();
    let mut b: usize = 0;
    while b < n
        invariant
            n == library@.len(),
            b <= n,
            forall|j: int| 0 <= j < b ==> sources_fit(library@, #[trigger] library@[j]),
        decreases n - b,
    {
        if !check_sources(library, &library[b]) {
            return false;
        }
        b += 1;
    }
    check_acyclic(library)
}

} // verus!
