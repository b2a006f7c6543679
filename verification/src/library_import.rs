use std::collections::hash_map::DefaultHasher;
use std::collections::HashMap;
use std::hash::Hasher;
use vstd::prelude::*;
use vstd::slice::slice_to_vec;
use vstd::std_specs::hash::DefaultHasherAdditionalSpecFns;
use vstd::string::StringSliceAdditionalSpecFns;

use crate::library::{folder_chips, models, ChipFolder, GlobalLibrary};
use crate::text::{lemma_suffixed_injective, suffixed, suffixed_name};
use crate::types::{BlueprintModel, ChipBlueprint, Component, ComponentType, Connection, SourcePort, TargetPort};

verus! {

broadcast use vstd::std_specs::hash::group_hash_axioms;

// ---------------------------------------------------------------------------
// Content hashing
// ---------------------------------------------------------------------------

/// The eight little-endian bytes of `x`: what hashing a `usize` writes on
/// the 64-bit little-endian machines this library is built for (hashing
/// writes the integer's native bytes).
pub open spec fn word_bytes(x: usize) -> Seq<u8> {
    Seq::new(8, |i: int| (((x as u64) >> ((8 * i) as u64)) & 0xffu64) as u8)
}

/// The decimal digits of `n`, as ASCII bytes.
pub open spec fn decimal_bytes(n: nat) -> Seq<u8>
    decreases n,
{
    if n < 10 {
        seq![(48 + n) as u8]
    } else {
        decimal_bytes(n / 10).push((48 + n % 10) as u8)
    }
}

/// The bytes of the `Debug` text of a component kind.
pub open spec fn type_text(t: ComponentType) -> Seq<u8> {
    match t {
        ComponentType::Nand => "Nand".spec_bytes(),
        ComponentType::Input => "Input".spec_bytes(),
        ComponentType::Output => "Output".spec_bytes(),
        ComponentType::Clock => "Clock".spec_bytes(),
        ComponentType::SubChip(i) => "SubChip(".spec_bytes() + decimal_bytes(i as nat) + ")".spec_bytes(),
    }
}

/// The bytes of the `Debug` text of a connection's source.
pub open spec fn source_text(s: SourcePort) -> Seq<u8> {
    match s {
        SourcePort::ChipInput(i) => "ChipInput(".spec_bytes() + decimal_bytes(i as nat) + ")".spec_bytes(),
        SourcePort::ComponentOutput { component_idx, port_idx } => "ComponentOutput { component_idx: ".spec_bytes()
            + decimal_bytes(component_idx as nat) + ", port_idx: ".spec_bytes() + decimal_bytes(port_idx as nat)
            + " }".spec_bytes(),
    }
}

/// The bytes of the `Debug` text of a connection's target.
pub open spec fn target_text(t: TargetPort) -> Seq<u8> {
    match t {
        TargetPort::ChipOutput(i) => "ChipOutput(".spec_bytes() + decimal_bytes(i as nat) + ")".spec_bytes(),
        TargetPort::ComponentInput { component_idx, port_idx } => "ComponentInput { component_idx: ".spec_bytes()
            + decimal_bytes(component_idx as nat) + ", port_idx: ".spec_bytes() + decimal_bytes(port_idx as nat)
            + " }".spec_bytes(),
    }
}

/// What hashing a component kind's text writes: the text, then the byte
/// 0xff that ends a hashed string.
pub open spec fn component_bytes(t: ComponentType) -> Seq<u8> {
    type_text(t) + seq![0xffu8]
}

/// What hashing a connection's text writes: the source's text and the
/// target's text, then the byte 0xff that ends a hashed string.
pub open spec fn connection_bytes(c: Connection) -> Seq<u8> {
    source_text(c.source) + target_text(c.target) + seq![0xffu8]
}

/// A component type with its sub-chip reference renumbered where `m` has
/// an entry for it.
pub open spec fn mapped_type(t: ComponentType, m: Map<usize, usize>) -> ComponentType {
    match t {
        ComponentType::SubChip(i) => ComponentType::SubChip(
            if m.contains_key(i) {
                m[i]
            } else {
                i
            },
        ),
        other => other,
    }
}

/// The writes that identify a blueprint's content: its interface sizes as
/// machine words, then the `Debug` text of each component kind (sub-chip
/// references renumbered by `m`) and of each connection, hashed as strings.
/// Names and clock periods are not part of the content.
pub open spec fn content_writes(bp: BlueprintModel, m: Map<usize, usize>) -> Seq<Seq<u8>> {
    seq![word_bytes(bp.inputs), word_bytes(bp.outputs)] + bp.components.map_values(
        |c: Component| component_bytes(mapped_type(c.component_type, m)),
    ) + bp.connections.map_values(|c: Connection| connection_bytes(c))
}

/// The content hash of a blueprint: std's `DefaultHasher` digest of its
/// content writes.
pub open spec fn content_hash(bp: BlueprintModel, m: Map<usize, usize>) -> u64 {
    DefaultHasher::spec_finish(content_writes(bp, m))
}

fn word_bytes_of(x: usize) -> (r: Vec<u8>)
    ensures
        r@ == word_bytes(x),
{
    let v = x as u64;
    let mut r: Vec<u8> = Vec::new();
    let mut i: u64 = 0;
    while i < 8
        invariant
            v == x as u64,
            i <= 8,
            r@.len() == i,
            forall|j: int| 0 <= j < i ==> #[trigger] r@[j] == ((v >> ((8 * j) as u64)) & 0xffu64) as u8,
        decreases 8 - i,
    {
        r.push(((v >> (8 * i)) & 0xff) as u8);
        i += 1;
    }
    assert(r@ =~= word_bytes(x));
    r
}

fn concat_bytes(a: Vec<u8>, b: Vec<u8>) -> (r: Vec<u8>)
    ensures
        r@ == a@ + b@,
{
    let mut r = a;
    let mut b = b;
    r.append(&mut b);
    r
}

fn text_bytes(s: &str) -> (r: Vec<u8>)
    ensures
        r@ == s.spec_bytes(),
{
    slice_to_vec(s.as_bytes())
}

fn decimal_bytes_of(n: usize) -> (r: Vec<u8>)
    ensures
        r@ == decimal_bytes(n as nat),
    decreases n,
{
    if n < 10 {
        let mut r: Vec<u8> = Vec::new();
        r.push((48 + n) as u8);
        assert(r@ =~= decimal_bytes(n as nat));
        r
    } else {
        let mut r = decimal_bytes_of(n / 10);
        r.push((48 + n % 10) as u8);
        r
    }
}

/// The bytes of `open`, the decimal digits of `n`, and `close`.
fn wrapped_number(open: &str, n: usize, close: &str) -> (r: Vec<u8>)
    ensures
        r@ == open.spec_bytes() + decimal_bytes(n as nat) + close.spec_bytes(),
{
    concat_bytes(concat_bytes(text_bytes(open), decimal_bytes_of(n)), text_bytes(close))
}

/// The bytes of `open`, the decimal digits of `c`, `mid`, those of `p` and `close`.
fn wrapped_pair(open: &str, c: usize, mid: &str, p: usize, close: &str) -> (r: Vec<u8>)
    ensures
        r@ == open.spec_bytes() + decimal_bytes(c as nat) + mid.spec_bytes() + decimal_bytes(p as nat)
            + close.spec_bytes(),
{
    let head = concat_bytes(concat_bytes(text_bytes(open), decimal_bytes_of(c)), text_bytes(mid));
    concat_bytes(concat_bytes(head, decimal_bytes_of(p)), text_bytes(close))
}

fn with_end(v: Vec<u8>) -> (r: Vec<u8>)
    ensures
        r@ == v@ + seq![0xffu8],
{
    let mut r = v;
    r.push(0xffu8);
    r
}

fn component_bytes_of(t: ComponentType) -> (r: Vec<u8>)
    ensures
        r@ == component_bytes(t),
{
    let text = match t {
        ComponentType::Nand => text_bytes("Nand"),
        ComponentType::Input => text_bytes("Input"),
        ComponentType::Output => text_bytes("Output"),
        ComponentType::Clock => text_bytes("Clock"),
        ComponentType::SubChip(i) => wrapped_number("SubChip(", i, ")"),
    };
    with_end(text)
}

fn connection_bytes_of(c: Connection) -> (r: Vec<u8>)
    ensures
        r@ == connection_bytes(c),
{
    let s = match c.source {
        SourcePort::ChipInput(i) => wrapped_number("ChipInput(", i, ")"),
        SourcePort::ComponentOutput { component_idx, port_idx } => wrapped_pair(
            "ComponentOutput { component_idx: ",
            component_idx,
            ", port_idx: ",
            port_idx,
            " }",
        ),
    };
    let t = match c.target {
        TargetPort::ChipOutput(i) => wrapped_number("ChipOutput(", i, ")"),
        TargetPort::ComponentInput { component_idx, port_idx } => wrapped_pair(
            "ComponentInput { component_idx: ",
            component_idx,
            ", port_idx: ",
            port_idx,
            " }",
        ),
    };
    with_end(concat_bytes(s, t))
}

impl GlobalLibrary {
    /// Compute a content hash for a ChipBlueprint based on its components and connections.
    /// Uses index_map to normalize SubChip indices for accurate deduplication.
    pub fn blueprint_hash(bp: &ChipBlueprint, index_map: &HashMap<usize, usize>) -> (r: u64)
        ensures
            r == content_hash(bp@, index_map@),
    {
        let mut hasher = DefaultHasher::new();
        hasher.write(word_bytes_of(bp.inputs).as_slice());
        hasher.write(word_bytes_of(bp.outputs).as_slice());
        let ghost head = seq![word_bytes(bp.inputs), word_bytes(bp.outputs)];
        assert(hasher@ =~= head);
        let nc = bp.components.len();
        let mut i: usize = 0;
        while i < nc
            invariant
                nc == bp.components@.len(),
                i <= nc,
                hasher@ == head + bp.components@.take(i as int).map_values(
                    |c: Component| component_bytes(mapped_type(c.component_type, index_map@)),
                ),
            decreases nc - i,
        {
            let t = match bp.components[i].component_type {
                ComponentType::SubChip(idx) => {
                    let mapped = match index_map.get(&idx) {
                        Some(m) => *m,
                        None => idx,
                    };
                    ComponentType::SubChip(mapped)
                },
                other => other,
            };
            hasher.write(component_bytes_of(t).as_slice());
            proof {
                assert(bp.components@.take(i + 1) =~= bp.components@.take(i as int).push(bp.components@[i as int]));
            }
            i += 1;
        }
        let ghost mid = head + bp.components@.map_values(
            |c: Component| component_bytes(mapped_type(c.component_type, index_map@)),
        );
        assert(bp.components@.take(nc as int) =~= bp.components@);
        let nw = bp.connections.len();
        let mut k: usize = 0;
        while k < nw
            invariant
                nw == bp.connections@.len(),
                k <= nw,
                hasher@ == mid + bp.connections@.take(k as int).map_values(|c: Connection| connection_bytes(c)),
            decreases nw - k,
        {
            hasher.write(connection_bytes_of(bp.connections[k]).as_slice());
            proof {
                assert(bp.connections@.take(k + 1) =~= bp.connections@.take(k as int).push(bp.connections@[k as int]));
            }
            k += 1;
        }
        assert(bp.connections@.take(nw as int) =~= bp.connections@);
        assert(hasher@ =~= content_writes(bp@, index_map@));
        hasher.finish()
    }
}

// ---------------------------------------------------------------------------
// Importing a project's chips
// ---------------------------------------------------------------------------

/// The index of the first entry of `hs` equal to `h`.
pub open spec fn first_match(hs: Seq<u64>, h: u64) -> Option<nat>
    decreases hs.len(),
{
    if hs.len() == 0 {
        None
    } else {
        match first_match(hs.drop_last(), h) {
            Some(i) => Some(i),
            None => if hs.last() == h {
                Some((hs.len() - 1) as nat)
            } else {
                None
            },
        }
    }
}

/// `k` is the least positive suffix that makes `name` unused in `names`.
pub open spec fn is_least_free_suffix(name: Seq<char>, names: Seq<Seq<char>>, k: nat) -> bool {
    &&& k >= 1
    &&& !names.contains(suffixed(name, k))
    &&& forall|j: nat| 1 <= j < k ==> names.contains(#[trigger] suffixed(name, j))
}

/// The name under which an imported chip is stored: its own when unused,
/// else with the least numeric suffix that is unused.
pub open spec fn fresh_name(name: Seq<char>, names: Seq<Seq<char>>) -> Seq<char> {
    if names.contains(name) {
        suffixed(name, choose|k: nat| is_least_free_suffix(name, names, k))
    } else {
        name
    }
}

/// The bookkeeping of an import: the index map built so far, the content
/// hashes and names of the library plus the chips imported so far, and the
/// imported chips.
pub struct ImportState {
    pub map: Map<usize, usize>,
    pub hashes: Seq<u64>,
    pub names: Seq<Seq<char>>,
    pub imports: Seq<BlueprintModel>,
}

/// Importing project chip `old_idx`: a chip whose content is already in the
/// library maps to the first such entry; any other chip is appended under a
/// fresh name and maps to its new flat index.
pub open spec fn import_step(st: ImportState, old_idx: usize, chip: BlueprintModel, base: nat) -> ImportState {
    let h = content_hash(chip, st.map);
    match first_match(st.hashes, h) {
        Some(pos) => ImportState { map: st.map.insert(old_idx, pos as usize), ..st },
        None => {
            let name = fresh_name(chip.name, st.names);
            ImportState {
                map: st.map.insert(old_idx, (base + st.imports.len()) as usize),
                hashes: st.hashes.push(h),
                names: st.names.push(name),
                imports: st.imports.push(BlueprintModel { name, ..chip }),
            }
        },
    }
}

/// The first `k` project chips imported in order.
pub open spec fn import_chips(start: ImportState, chips: Seq<BlueprintModel>, base: nat, k: nat) -> ImportState
    decreases k,
{
    if k == 0 {
        start
    } else {
        import_step(import_chips(start, chips, base, (k - 1) as nat), (k - 1) as usize, chips[k - 1], base)
    }
}

/// The bookkeeping before any chip is imported into a library whose flat
/// list is `flat`.
pub open spec fn import_start(flat: Seq<BlueprintModel>) -> ImportState {
    ImportState {
        map: Map::empty(),
        hashes: flat.map_values(|b: BlueprintModel| content_hash(b, Map::empty())),
        names: flat.map_values(|b: BlueprintModel| b.name),
        imports: Seq::empty(),
    }
}

/// A blueprint with every sub-chip reference that `m` maps renumbered.
pub open spec fn relinked(b: BlueprintModel, m: Map<usize, usize>) -> BlueprintModel {
    BlueprintModel {
        components: b.components.map_values(
            |c: Component| Component { component_type: mapped_type(c.component_type, m), ..c },
        ),
        ..b
    }
}

/// Some suffix up to `names.len() + 1` is free.
pub proof fn lemma_free_suffix_exists(name: Seq<char>, names: Seq<Seq<char>>)
    ensures
        exists|k: nat| 1 <= k <= names.len() + 1 && !names.contains(#[trigger] suffixed(name, k)),
{
    broadcast use vstd::seq_lib::seq_to_set_is_finite;
    let n = names.len();
    if forall|k: nat| 1 <= k <= n + 1 ==> names.contains(#[trigger] suffixed(name, k)) {
        let cands = Seq::new(n + 1, |i: int| suffixed(name, (i + 1) as nat));
        assert forall|a: int, b: int| 0 <= a < cands.len() && 0 <= b < cands.len() && a != b implies cands[a]
            != cands[b] by {
            if cands[a] == cands[b] {
                lemma_suffixed_injective(name, (a + 1) as nat, (b + 1) as nat);
            }
        }
        assert(cands.no_duplicates());
        cands.unique_seq_to_set();
        assert forall|x: Seq<char>| cands.to_set().contains(x) implies names.to_set().contains(x) by {
            let i = choose|i: int| 0 <= i < cands.len() && cands[i] == x;
            assert(names.contains(suffixed(name, (i + 1) as nat)));
        }
        names.lemma_cardinality_of_set();
        vstd::set_lib::lemma_len_subset(cands.to_set(), names.to_set());
        assert(false);
    }
}

/// The index of the first hash equal to `h`.
fn find_hash(hs: &Vec<u64>, h: u64) -> (r: Option<usize>)
    ensures
        match r {
            Some(i) => first_match(hs@, h) == Some(i as nat),
            None => first_match(hs@, h) is None,
        },
{
    let n = hs.len();
    let mut i: usize = 0;
    while i < n
        invariant
            n == hs@.len(),
            i <= n,
            first_match(hs@.take(i as int), h) is None,
        decreases n - i,
    {
        proof {
            assert(hs@.take(i + 1).drop_last() =~= hs@.take(i as int));
        }
        if hs[i] == h {
            proof {
                lemma_first_match_prefix(hs@, h, (i + 1) as nat);
            }
            return Some(i);
        }
        i += 1;
    }
    assert(hs@.take(n as int) =~= hs@);
    None
}

/// A match found in a prefix is the first match of the whole sequence.
pub proof fn lemma_first_match_prefix(hs: Seq<u64>, h: u64, k: nat)
    requires
        k <= hs.len(),
        first_match(hs.take(k as int), h) is Some,
    ensures
        first_match(hs, h) == first_match(hs.take(k as int), h),
    decreases hs.len() - k,
{
    if k < hs.len() {
        assert(hs.take((k + 1) as int).drop_last() =~= hs.take(k as int));
        lemma_first_match_prefix(hs, h, k + 1);
    } else {
        assert(hs.take(k as int) =~= hs);
    }
}

/// Appending an entry keeps the first match of a hash already present.
pub proof fn lemma_first_match_push(hs: Seq<u64>, x: u64, h: u64)
    ensures
        first_match(hs, h) is Some ==> first_match(hs.push(x), h) == first_match(hs, h),
        first_match(hs, h) is None ==> first_match(hs.push(x), h) == (if x == h {
            Some(hs.len())
        } else {
            None
        }),
{
    assert(hs.push(x).drop_last() =~= hs);
}

/// Whether `names` holds a string equal to `name`.
fn contains_name(names: &Vec<String>, name: &String) -> (r: bool)
    ensures
        r == names@.map_values(|s: String| s@).contains(name@),
{
    let ghost ns = names@.map_values(|s: String| s@);
    let n = names.len();
    let mut i: usize = 0;
    while i < n
        invariant
            n == names@.len(),
            ns == names@.map_values(|s: String| s@),
            i <= n,
            forall|j: int| 0 <= j < i ==> ns[j] != name@,
        decreases n - i,
    {
        if names[i] == *name {
            assert(ns[i as int] == name@);
            return true;
        }
        i += 1;
    }
    false
}

/// The bookkeeping after importing `chips` into a library whose flat list is `flat`.
pub open spec fn import_outcome(flat: Seq<ChipBlueprint>, chips: Seq<ChipBlueprint>) -> ImportState {
    import_chips(import_start(models(flat)), models(chips), flat.len(), chips.len())
}

pub open spec fn names_of(v: Seq<String>) -> Seq<Seq<char>> {
    v.map_values(|s: String| s@)
}

/// At most one suffix is the least free one.
pub proof fn lemma_least_free_unique(name: Seq<char>, names: Seq<Seq<char>>, a: nat, b: nat)
    requires
        is_least_free_suffix(name, names, a),
        is_least_free_suffix(name, names, b),
    ensures
        a == b,
{
    if a < b {
        assert(names.contains(suffixed(name, a)));
    } else if b < a {
        assert(names.contains(suffixed(name, b)));
    }
}

/// The name under which a chip named `name` is imported next to `names`.
fn import_name(name: &String, names: &Vec<String>) -> (r: String)
    requires
        names@.len() < usize::MAX,
    ensures
        r@ == fresh_name(name@, names_of(names@)),
{
    let ghost ns = names_of(names@);
    if !contains_name(names, name) {
        return name.clone();
    }
    proof {
        lemma_free_suffix_exists(name@, ns);
    }
    let n = names.len();
    let mut suffix: usize = 1;
    loop
        invariant
            n == names@.len(),
            n < usize::MAX,
            ns == names_of(names@),
            ns.contains(name@),
            exists|k: nat| 1 <= k <= ns.len() + 1 && !ns.contains(#[trigger] suffixed(name@, k)),
            1 <= suffix <= n + 1,
            forall|j: nat| 1 <= j < suffix ==> ns.contains(#[trigger] suffixed(name@, j)),
        decreases n + 1 - suffix,
    {
        let candidate = suffixed_name(name, suffix);
        if !contains_name(names, &candidate) {
            proof {
                assert(is_least_free_suffix(name@, ns, suffix as nat));
                let k = choose|k: nat| is_least_free_suffix(name@, ns, k);
                lemma_least_free_unique(name@, ns, k, suffix as nat);
            }
            return candidate;
        }
        proof {
            if suffix == n + 1 {
                let k = choose|k: nat| 1 <= k <= ns.len() + 1 && !ns.contains(#[trigger] suffixed(name@, k));
                if k < suffix {
                    assert(ns.contains(suffixed(name@, k)));
                }
            }
        }
        suffix += 1;
    }
}

/// Renumbers every sub-chip reference of `bp` that `index_map` maps.
fn relink_chip(bp: &mut ChipBlueprint, index_map: &HashMap<usize, usize>)
    ensures
        final(bp)@ == relinked(old(bp)@, index_map@),
{
    let ghost orig = bp.components@;
    let nc = bp.components.len();
    let mut c: usize = 0;
    while c < nc
        invariant
            nc == orig.len(),
            bp.components@.len() == nc,
            c <= nc,
            bp.name@ == old(bp).name@,
            bp.inputs == old(bp).inputs,
            bp.outputs == old(bp).outputs,
            bp@.input_names == old(bp)@.input_names,
            bp@.output_names == old(bp)@.output_names,
            bp.connections@ == old(bp).connections@,
            orig == old(bp).components@,
            forall|j: int| 0 <= j < c ==> #[trigger] bp.components@[j] == (Component {
                component_type: mapped_type(orig[j].component_type, index_map@),
                ..orig[j]
            }),
            forall|j: int| c <= j < nc ==> #[trigger] bp.components@[j] == orig[j],
        decreases nc - c,
    {
        let comp = bp.components[c];
        if let ComponentType::SubChip(sub) = comp.component_type {
            match index_map.get(&sub) {
                Some(v) => {
                    bp.components.set(c, Component { component_type: ComponentType::SubChip(*v), clock_period: comp.clock_period });
                },
                None => {},
            }
        }
        c += 1;
    }
    assert(bp@.components =~= relinked(old(bp)@, index_map@).components);
}

/// Where an index of the flat list lands when `k` chips are inserted at
/// position `u` of a flat list of length `n`: indices before `u` stay, the
/// others move up by `k`.
pub open spec fn shifted_index(i: usize, u: nat, n: nat, k: nat) -> usize {
    if u <= i && i < n {
        (i + k) as usize
    } else {
        i
    }
}

pub open spec fn shifted_type(t: ComponentType, u: nat, n: nat, k: nat) -> ComponentType {
    match t {
        ComponentType::SubChip(i) => ComponentType::SubChip(shifted_index(i, u, n, k)),
        other => other,
    }
}

/// A library chip with its sub-chip references following the chips that an
/// insertion of `k` chips at position `u` moves.
pub open spec fn shifted(b: BlueprintModel, u: nat, n: nat, k: nat) -> BlueprintModel {
    BlueprintModel {
        components: b.components.map_values(
            |c: Component| Component { component_type: shifted_type(c.component_type, u, n, k), ..c },
        ),
        ..b
    }
}

/// The flat index that an import gives a chip, from its position `v` in the
/// import's bookkeeping (the old flat list, then the imported chips): library
/// chips before the ungrouped end stay, folder chips move up by the `k`
/// imported chips, and the `j`-th imported chip lands at `u + j`, right after
/// the old ungrouped chips.
pub open spec fn placed(v: usize, u: nat, n: nat, k: nat) -> usize {
    if v < u {
        v
    } else if v < n {
        (v + k) as usize
    } else {
        (u + (v - n)) as usize
    }
}

pub open spec fn placed_map(m: Map<usize, usize>, u: nat, n: nat, k: nat) -> Map<usize, usize> {
    Map::new(|i: usize| m.contains_key(i), |i: usize| placed(m[i], u, n, k))
}

/// The flat list after an import: the old ungrouped chips, the imported
/// chips, then the folder chips, the library chips renumbered to follow the
/// insertion and the imported ones to their placed indices.
pub open spec fn imported_flat(ungrouped: Seq<BlueprintModel>, in_folders: Seq<BlueprintModel>, chips: Seq<BlueprintModel>) -> Seq<BlueprintModel> {
    let u = ungrouped.len();
    let n = u + in_folders.len();
    let o = import_chips(import_start(ungrouped + in_folders), chips, n, chips.len());
    let k = o.imports.len();
    ungrouped.map_values(|b: BlueprintModel| shifted(b, u, n, k)) + o.imports.map_values(
        |b: BlueprintModel| relinked(b, placed_map(o.map, u, n, k)),
    ) + in_folders.map_values(|b: BlueprintModel| shifted(b, u, n, k))
}

/// Renumbers the sub-chip references of a library chip after `k` chips are
/// inserted at flat position `u` of a flat list of length `n`.
fn shift_chip(bp: &mut ChipBlueprint, u: usize, n: usize, k: usize)
    requires
        n + k < usize::MAX,
    ensures
        final(bp)@ == shifted(old(bp)@, u as nat, n as nat, k as nat),
{
    let ghost orig = bp.components@;
    let nc = bp.components.len();
    let mut c: usize = 0;
    while c < nc
        invariant
            nc == orig.len(),
            n + k < usize::MAX,
            bp.components@.len() == nc,
            c <= nc,
            bp.name@ == old(bp).name@,
            bp.inputs == old(bp).inputs,
            bp.outputs == old(bp).outputs,
            bp@.input_names == old(bp)@.input_names,
            bp@.output_names == old(bp)@.output_names,
            bp.connections@ == old(bp).connections@,
            orig == old(bp).components@,
            forall|j: int| 0 <= j < c ==> #[trigger] bp.components@[j] == (Component {
                component_type: shifted_type(orig[j].component_type, u as nat, n as nat, k as nat),
                ..orig[j]
            }),
            forall|j: int| c <= j < nc ==> #[trigger] bp.components@[j] == orig[j],
        decreases nc - c,
    {
        let comp = bp.components[c];
        if let ComponentType::SubChip(sub) = comp.component_type {
            if u <= sub && sub < n {
                bp.components.set(c, Component { component_type: ComponentType::SubChip(sub + k), clock_period: comp.clock_period });
            }
        }
        c += 1;
    }
    assert(bp@.components =~= shifted(old(bp)@, u as nat, n as nat, k as nat).components);
}

impl GlobalLibrary {
    /// Import chips from a project's library, mapping and remapping their sub-chip dependencies.
    /// Returns the index mapping (old index -> new flat index).
    ///
    /// A chip whose content the library already has maps to that chip; any
    /// other is stored, under a fresh name, at the end of the ungrouped chips.
    /// The chips of the folders, which follow the ungrouped ones in the flat
    /// list, move up by the number of stored chips, and every sub-chip
    /// reference in the library follows the chips to their new indices.
    pub fn import_from_project(&mut self, project_chips: &[ChipBlueprint]) -> (r: HashMap<usize, usize>)
        requires
            old(self).flat().len() + project_chips@.len() < usize::MAX,
        ensures
            ({
                let o = import_outcome(old(self).flat(), project_chips@);
                let u = old(self).ungrouped@.len();
                let n = old(self).flat().len();
                let k = o.imports.len();
                &&& r@ == placed_map(o.map, u, n, k)
                &&& models(final(self).ungrouped@) == models(old(self).ungrouped@).map_values(
                    |b: BlueprintModel| shifted(b, u, n, k),
                ) + o.imports.map_values(|b: BlueprintModel| relinked(b, r@))
                &&& final(self).folders@.len() == old(self).folders@.len()
                &&& final(self).folder_names() == old(self).folder_names()
                &&& forall|f: int|
                    0 <= f < old(self).folders@.len() ==> models((#[trigger] final(self).folders@[f]).chips@)
                        == models(old(self).folders@[f].chips@).map_values(|b: BlueprintModel| shifted(b, u, n, k))
                &&& models(final(self).flat()) == imported_flat(
                    models(old(self).ungrouped@),
                    models(folder_chips(old(self).folders@)),
                    models(project_chips@),
                )
            }),
    {
        let ghost flat0 = self.flat();
        let ghost chips = models(project_chips@);
        let mut index_map: HashMap<usize, usize> = HashMap::new();
        let existing_flat = self.to_flat_list();
        let ghost start = import_start(models(flat0));
        let empty_map: HashMap<usize, usize> = HashMap::new();
        let mut existing_hashes: Vec<u64> = Vec::new();
        let mut existing_names: Vec<String> = Vec::new();
        let nf = existing_flat.len();
        proof {
            assert(models(existing_flat@).len() == models(flat0).len());
        }
        let mut i: usize = 0;
        while i < nf
            invariant
                nf == existing_flat@.len(),
                models(existing_flat@) == models(flat0),
                start == import_start(models(flat0)),
                index_map@ == Map::<usize, usize>::empty(),
                empty_map@ == Map::<usize, usize>::empty(),
                i <= nf,
                nf == flat0.len(),
                existing_names@.len() == i,
                existing_hashes@.len() == i,
                existing_hashes@ == start.hashes.take(i as int),
                names_of(existing_names@) == start.names.take(i as int),
            decreases nf - i,
        {
            let h = Self::blueprint_hash(&existing_flat[i], &empty_map);
            existing_hashes.push(h);
            existing_names.push(existing_flat[i].name.clone());
            proof {
                assert(models(existing_flat@)[i as int] == existing_flat@[i as int]@);
                assert(existing_hashes@ =~= start.hashes.take(i + 1));
                assert(existing_names@[i as int]@ == existing_flat@[i as int].name@);
                assert(start.names[i as int] == models(flat0)[i as int].name);
                assert(names_of(existing_names@) =~= start.names.take(i + 1));
            }
            i += 1;
        }
        proof {
            assert(start.hashes.take(nf as int) =~= start.hashes);
            assert(start.names.take(nf as int) =~= start.names);
        }
        let mut new_imports: Vec<ChipBlueprint> = Vec::new();
        proof {
            assert(models(new_imports@) =~= Seq::<BlueprintModel>::empty());
            assert(nf == flat0.len()) by {
                assert(models(existing_flat@).len() == models(flat0).len());
            }
        }
        let new_flat_len = nf;
        let np = project_chips.len();
        let mut old_idx: usize = 0;
        while old_idx < np
            invariant
                np == project_chips@.len(),
                chips == models(project_chips@),
                nf == flat0.len(),
                new_flat_len == nf,
                nf + np < usize::MAX,
                old_idx <= np,
                (ImportState {
                    map: index_map@,
                    hashes: existing_hashes@,
                    names: names_of(existing_names@),
                    imports: models(new_imports@),
                }) == import_chips(start, chips, nf as nat, old_idx as nat),
                existing_hashes@.len() == nf + new_imports@.len(),
                existing_names@.len() == nf + new_imports@.len(),
                new_imports@.len() <= old_idx,
                start == import_start(models(flat0)),
            decreases np - old_idx,
        {
            let chip = &project_chips[old_idx];
            let hash = Self::blueprint_hash(chip, &index_map);
            let ghost st = import_chips(start, chips, nf as nat, old_idx as nat);
            proof {
                assert(chips[old_idx as int] == chip@);
            }
            match find_hash(&existing_hashes, hash) {
                Some(pos) => {
                    index_map.insert(old_idx, pos);
                },
                None => {
                    let new_idx = new_flat_len + new_imports.len();
                    index_map.insert(old_idx, new_idx);
                    let mut import_chip = chip.clone();
                    import_chip.name = import_name(&chip.name, &existing_names);
                    existing_names.push(import_chip.name.clone());
                    existing_hashes.push(hash);
                    new_imports.push(import_chip);
                    proof {
                        assert(names_of(existing_names@) =~= st.names.push(fresh_name(chip@.name, st.names)));
                        assert(models(new_imports@) =~= st.imports.push(
                            BlueprintModel { name: fresh_name(chip@.name, st.names), ..chip@ },
                        ));
                    }
                },
            }
            old_idx += 1;
        }
        let ghost fin = import_chips(start, chips, nf as nat, np as nat);
        proof {
            lemma_import_shape(models(flat0), chips, np as nat);
            lemma_import_map_bound(models(flat0), chips, np as nat);
        }
        let u = self.ungrouped.len();
        let ni = new_imports.len();
        // The flat index of every project chip.
        let mut final_map: HashMap<usize, usize> = HashMap::new();
        let mut p: usize = 0;
        while p < np
            invariant
                np == project_chips@.len(),
                nf + np < usize::MAX,
                u <= nf,
                u == self.ungrouped@.len(),
                nf == flat0.len(),
                ni == fin.imports.len(),
                ni <= np,
                index_map@ == fin.map,
                maps_first(fin.map, np as nat),
                forall|i: usize| #[trigger] fin.map.contains_key(i) ==> fin.map[i] < nf + ni,
                p <= np,
                final_map@ == Map::new(|i: usize| i < p, |i: usize| placed(fin.map[i], u as nat, nf as nat, ni as nat)),
            decreases np - p,
        {
            proof {
                assert(fin.map.contains_key(p));
            }
            let v = match index_map.get(&p) {
                Some(v) => *v,
                None => 0,
            };
            let w = if v < u {
                v
            } else if v < nf {
                v + ni
            } else {
                u + (v - nf)
            };
            final_map.insert(p, w);
            proof {
                assert(final_map@ =~= Map::new(|i: usize| i < p + 1, |i: usize| placed(fin.map[i], u as nat, nf as nat, ni as nat)));
            }
            p += 1;
        }
        proof {
            assert(final_map@ =~= placed_map(fin.map, u as nat, nf as nat, ni as nat));
        }
        // Renumber the sub-chip references of the newly imported chips.
        let mut k: usize = 0;
        while k < ni
            invariant
                ni == new_imports@.len(),
                fin.imports.len() == ni,
                k <= ni,
                forall|j: int| 0 <= j < k ==> (#[trigger] new_imports@[j])@ == relinked(fin.imports[j], final_map@),
                forall|j: int| k <= j < ni ==> (#[trigger] new_imports@[j])@ == fin.imports[j],
            decreases ni - k,
        {
            relink_chip(&mut new_imports[k], &final_map);
            k += 1;
        }
        // The library chips follow the folder chips that the insertion moves.
        let ghost old_lib = *self;
        let mut g: usize = 0;
        while g < u
            invariant
                u == old_lib.ungrouped@.len(),
                self.ungrouped@.len() == u,
                self.folders@ == old_lib.folders@,
                nf + ni < usize::MAX,
                g <= u,
                forall|j: int| 0 <= j < g ==> (#[trigger] self.ungrouped@[j])@ == shifted(
                    old_lib.ungrouped@[j]@,
                    u as nat,
                    nf as nat,
                    ni as nat,
                ),
                forall|j: int| g <= j < u ==> #[trigger] self.ungrouped@[j] == old_lib.ungrouped@[j],
            decreases u - g,
        {
            shift_chip(&mut self.ungrouped[g], u, nf, ni);
            g += 1;
        }
        let nfo = self.folders.len();
        let mut f: usize = 0;
        while f < nfo
            invariant
                nfo == old_lib.folders@.len(),
                self.folders@.len() == nfo,
                self.ungrouped@.len() == u,
                u == old_lib.ungrouped@.len(),
                forall|j: int| 0 <= j < u ==> (#[trigger] self.ungrouped@[j])@ == shifted(
                    old_lib.ungrouped@[j]@,
                    u as nat,
                    nf as nat,
                    ni as nat,
                ),
                nf + ni < usize::MAX,
                f <= nfo,
                forall|x: int| 0 <= x < nfo ==> (#[trigger] self.folders@[x]).name@ == old_lib.folders@[x].name@,
                forall|x: int|
                    0 <= x < f ==> models((#[trigger] self.folders@[x]).chips@) == models(old_lib.folders@[x].chips@).map_values(
                        |b: BlueprintModel| shifted(b, u as nat, nf as nat, ni as nat),
                    ),
                forall|x: int| f <= x < nfo ==> #[trigger] self.folders@[x] == old_lib.folders@[x],
            decreases nfo - f,
        {
            let nc = self.folders[f].chips.len();
            let ghost before = self.folders@[f as int];
            let ghost fsnap = self.folders@;
            let ghost ug = self.ungrouped@;
            let mut c: usize = 0;
            while c < nc
                invariant
                    nfo == self.folders@.len(),
                    f < nfo,
                    nc == before.chips@.len(),
                    self.folders@[f as int].chips@.len() == nc,
                    self.folders@[f as int].name@ == before.name@,
                    nf + ni < usize::MAX,
                    c <= nc,
                    fsnap.len() == nfo,
                    self.ungrouped@ == ug,
                    forall|x: int| 0 <= x < nfo && x != f ==> #[trigger] self.folders@[x] == fsnap[x],
                    forall|j: int| 0 <= j < c ==> (#[trigger] self.folders@[f as int].chips@[j])@ == shifted(
                        before.chips@[j]@,
                        u as nat,
                        nf as nat,
                        ni as nat,
                    ),
                    forall|j: int| c <= j < nc ==> #[trigger] self.folders@[f as int].chips@[j] == before.chips@[j],
                decreases nc - c,
            {
                shift_chip(&mut self.folders[f].chips[c], u, nf, ni);
                c += 1;
            }
            proof {
                assert(models(self.folders@[f as int].chips@) =~= models(before.chips@).map_values(
                    |b: BlueprintModel| shifted(b, u as nat, nf as nat, ni as nat),
                ));
            }
            f += 1;
        }
        let ghost before = self.ungrouped@;
        self.ungrouped.append(&mut new_imports);
        proof {
            assert(models(before) =~= models(old_lib.ungrouped@).map_values(
                |b: BlueprintModel| shifted(b, u as nat, nf as nat, ni as nat),
            ));
            assert(models(self.ungrouped@) =~= models(before) + fin.imports.map_values(
                |b: BlueprintModel| relinked(b, final_map@),
            ));
            assert(self.folder_names() =~= old_lib.folder_names());
            lemma_models_folder_chips_shifted(old_lib.folders@, self.folders@, u as nat, nf as nat, ni as nat);
            assert(models(flat0) =~= models(old_lib.ungrouped@) + models(folder_chips(old_lib.folders@)));
            assert(models(self.flat()) =~= models(self.ungrouped@) + models(folder_chips(self.folders@)));
        }
        final_map
    }
}

/// The map of an import sends every project chip to a position of the old
/// flat list or of the imported chips.
proof fn lemma_import_map_bound(flat: Seq<BlueprintModel>, chips: Seq<BlueprintModel>, k: nat)
    requires
        k < usize::MAX,
    ensures
        forall|i: usize|
            #[trigger] import_chips(import_start(flat), chips, flat.len(), k).map.contains_key(i) ==> import_chips(
                import_start(flat),
                chips,
                flat.len(),
                k,
            ).map[i] < flat.len() + import_chips(import_start(flat), chips, flat.len(), k).imports.len(),
    decreases k,
{
    if k > 0 {
        lemma_import_map_bound(flat, chips, (k - 1) as nat);
        lemma_import_shape(flat, chips, (k - 1) as nat);
        let p = import_chips(import_start(flat), chips, flat.len(), (k - 1) as nat);
        let h = content_hash(chips[k - 1], p.map);
        if let Some(pos) = first_match(p.hashes, h) {
            lemma_first_match_bound(p.hashes, h);
        }
    }
}

/// A first match lies within the sequence.
proof fn lemma_first_match_bound(hs: Seq<u64>, h: u64)
    ensures
        first_match(hs, h) matches Some(i) ==> i < hs.len(),
    decreases hs.len(),
{
    if hs.len() > 0 {
        lemma_first_match_bound(hs.drop_last(), h);
    }
}

/// Renumbering every chip of every folder renumbers the folders' chips in
/// the flat list.
proof fn lemma_models_folder_chips_shifted(a: Seq<ChipFolder>, b: Seq<ChipFolder>, u: nat, n: nat, k: nat)
    requires
        a.len() == b.len(),
        forall|x: int| 0 <= x < a.len() ==> models((#[trigger] b[x]).chips@) == models(a[x].chips@).map_values(
            |c: BlueprintModel| shifted(c, u, n, k),
        ),
    ensures
        models(folder_chips(b)) == models(folder_chips(a)).map_values(|c: BlueprintModel| shifted(c, u, n, k)),
    decreases a.len(),
{
    if a.len() > 0 {
        lemma_models_folder_chips_shifted(a.drop_last(), b.drop_last(), u, n, k);
        assert(b.last() == b[b.len() - 1]);
        assert(a.last() == a[a.len() - 1]);
        let fa = folder_chips(a.drop_last());
        let fb = folder_chips(b.drop_last());
        let ca = a.last().chips@;
        let cb = b.last().chips@;
        assert(models(cb) == models(ca).map_values(|c: BlueprintModel| shifted(c, u, n, k)));
        assert(folder_chips(a) == fa + ca);
        assert(folder_chips(b) == fb + cb);
        assert(models(fa + ca) =~= models(fa) + models(ca));
        assert(models(fb + cb) =~= models(fb) + models(cb));
        assert((models(fa) + models(ca)).map_values(|c: BlueprintModel| shifted(c, u, n, k)) =~= models(fa).map_values(
            |c: BlueprintModel| shifted(c, u, n, k),
        ) + models(ca).map_values(|c: BlueprintModel| shifted(c, u, n, k)));
    } else {
        assert(folder_chips(b) == Seq::<ChipBlueprint>::empty());
        assert(folder_chips(a) == Seq::<ChipBlueprint>::empty());
        assert(models(folder_chips(b)) =~= models(folder_chips(a)).map_values(|c: BlueprintModel| shifted(c, u, n, k)));
    }
}

// ---------------------------------------------------------------------------
// Importing the same project twice
// ---------------------------------------------------------------------------

/// Every sub-chip reference of a project chip names an earlier chip of the
/// project, as in a project built bottom-up.
pub open spec fn refs_earlier(chips: Seq<BlueprintModel>) -> bool {
    forall|k: int, c: int|
        0 <= k < chips.len() && 0 <= c < chips[k].components.len() ==> match #[trigger] chips[k].components[c].component_type {
            ComponentType::SubChip(i) => i < k,
            _ => true,
        }
}

/// `m` has an entry for exactly the project indices below `k`.
pub open spec fn maps_first(m: Map<usize, usize>, k: nat) -> bool {
    forall|i: usize| #[trigger] m.contains_key(i) <==> i < k
}

/// During an import there is one hash per library chip and per imported
/// chip, and the map covers the chips handled so far.
proof fn lemma_import_shape(flat: Seq<BlueprintModel>, chips: Seq<BlueprintModel>, k: nat)
    requires
        k < usize::MAX,
    ensures
        import_chips(import_start(flat), chips, flat.len(), k).hashes.len() == flat.len() + import_chips(
            import_start(flat),
            chips,
            flat.len(),
            k,
        ).imports.len(),
        maps_first(import_chips(import_start(flat), chips, flat.len(), k).map, k),
        import_chips(import_start(flat), chips, flat.len(), k).imports.len() <= k,
    decreases k,
{
    if k > 0 {
        lemma_import_shape(flat, chips, (k - 1) as nat);
    }
}

/// The bookkeeping of an import only grows: hashes and imports are
/// appended to, and an index, once mapped, keeps its entry.
proof fn lemma_import_grows(flat: Seq<BlueprintModel>, chips: Seq<BlueprintModel>, j: nat, k: nat)
    requires
        j <= k,
        k < usize::MAX,
    ensures
        ({
            let a = import_chips(import_start(flat), chips, flat.len(), j);
            let b = import_chips(import_start(flat), chips, flat.len(), k);
            &&& a.hashes.len() <= b.hashes.len()
            &&& b.hashes.take(a.hashes.len() as int) == a.hashes
            &&& forall|i: usize| i < j ==> #[trigger] b.map[i] == a.map[i]
        }),
    decreases k,
{
    let a = import_chips(import_start(flat), chips, flat.len(), j);
    if k == j {
        assert(a.hashes.take(a.hashes.len() as int) =~= a.hashes);
    } else {
        lemma_import_grows(flat, chips, j, (k - 1) as nat);
        let p = import_chips(import_start(flat), chips, flat.len(), (k - 1) as nat);
        let b = import_chips(import_start(flat), chips, flat.len(), k);
        assert(b.hashes.take(a.hashes.len() as int) =~= a.hashes) by {
            assert(p.hashes.take(a.hashes.len() as int) == a.hashes);
        }
        assert forall|i: usize| i < j implies #[trigger] b.map[i] == a.map[i] by {
            assert(p.map[i] == a.map[i]);
            assert(i != (k - 1) as usize);
        }
    }
}

/// Hashing a chip with a map gives the plain hash of the chip relinked by a
/// map that renumbers its sub-chip references the same way; names do not
/// count.
proof fn lemma_hash_of_relinked(b: BlueprintModel, name: Seq<char>, m1: Map<usize, usize>, m2: Map<usize, usize>)
    requires
        forall|c: int|
            0 <= c < b.components.len() ==> mapped_type(#[trigger] b.components[c].component_type, m1)
                == mapped_type(b.components[c].component_type, m2),
    ensures
        content_hash(b, m1) == content_hash(relinked(BlueprintModel { name, ..b }, m2), Map::empty()),
{
    let r = relinked(BlueprintModel { name, ..b }, m2);
    assert(r.components.map_values(
        |c: Component| component_bytes(mapped_type(c.component_type, Map::<usize, usize>::empty())),
    ) =~= b.components.map_values(|c: Component| component_bytes(mapped_type(c.component_type, m1))));
    assert(content_writes(r, Map::empty()) =~= content_writes(b, m1));
}

/// The hashes recorded during an import are the plain hashes of the library
/// chips and of the imported chips relinked by any map that agrees with
/// the import's map.
proof fn lemma_import_hashes(flat: Seq<BlueprintModel>, chips: Seq<BlueprintModel>, k: nat, m: Map<usize, usize>)
    requires
        refs_earlier(chips),
        k <= chips.len(),
        k < usize::MAX,
        forall|i: usize| i < k ==> #[trigger] m.contains_key(i),
        forall|i: usize| i < k ==> m[i] == #[trigger] import_chips(import_start(flat), chips, flat.len(), k).map[i],
    ensures
        forall|j: int|
            0 <= j < flat.len() ==> #[trigger] import_chips(import_start(flat), chips, flat.len(), k).hashes[j]
                == content_hash(flat[j], Map::empty()),
        forall|t: int|
            0 <= t < import_chips(import_start(flat), chips, flat.len(), k).imports.len() ==> #[trigger] import_chips(
                import_start(flat),
                chips,
                flat.len(),
                k,
            ).hashes[flat.len() + t] == content_hash(
                relinked(import_chips(import_start(flat), chips, flat.len(), k).imports[t], m),
                Map::empty(),
            ),
    decreases k,
{
    let n0 = flat.len();
    let s = import_chips(import_start(flat), chips, n0, k);
    if k > 0 {
        let p = import_chips(import_start(flat), chips, n0, (k - 1) as nat);
        let key = (k - 1) as usize;
        lemma_import_shape(flat, chips, (k - 1) as nat);
        assert(s == import_step(p, key, chips[k - 1], n0));
        assert forall|i: usize| i < k - 1 implies m[i] == #[trigger] p.map[i] by {
            assert(i != key);
            assert(m[i] == s.map[i]);
            assert(s.map[i] == p.map[i]);
        }
        lemma_import_hashes(flat, chips, (k - 1) as nat, m);
        let chip = chips[k - 1];
        let h = content_hash(chip, p.map);
        if first_match(p.hashes, h) is None {
            let name = fresh_name(chip.name, p.names);
            assert forall|c: int| 0 <= c < chip.components.len() implies mapped_type(
                #[trigger] chip.components[c].component_type,
                p.map,
            ) == mapped_type(chip.components[c].component_type, m) by {
                match chip.components[c].component_type {
                    ComponentType::SubChip(i) => {
                        assert(chips[k - 1].components[c].component_type == chip.components[c].component_type);
                        assert(i < k - 1);
                        assert(p.map.contains_key(i));
                        assert(i != key);
                        assert(s.map[i] == p.map[i]);
                    },
                    _ => {},
                }
            }
            lemma_hash_of_relinked(chip, name, p.map, m);
            assert forall|t: int| 0 <= t < s.imports.len() implies #[trigger] s.hashes[n0 + t] == content_hash(
                relinked(s.imports[t], m),
                Map::empty(),
            ) by {
                if t < p.imports.len() {
                    assert(s.hashes[n0 + t] == p.hashes[n0 + t]);
                    assert(s.imports[t] == p.imports[t]);
                }
            }
        }
    } else {
        assert forall|j: int| 0 <= j < n0 implies #[trigger] s.hashes[j] == content_hash(flat[j], Map::empty()) by {}
    }
}

/// A second import whose starting hashes are those that the first import
/// ended with finds every chip, and maps each as the first import did.
proof fn lemma_reimport_steps(flat: Seq<BlueprintModel>, chips: Seq<BlueprintModel>, s2: ImportState, base2: nat, k: nat)
    requires
        k <= chips.len(),
        chips.len() < usize::MAX,
        s2.map == Map::<usize, usize>::empty(),
        s2.imports == Seq::<BlueprintModel>::empty(),
        s2.hashes == import_chips(import_start(flat), chips, flat.len(), chips.len()).hashes,
    ensures
        import_chips(s2, chips, base2, k) == (ImportState {
            map: import_chips(import_start(flat), chips, flat.len(), k).map,
            hashes: s2.hashes,
            names: s2.names,
            imports: Seq::empty(),
        }),
    decreases k,
{
    let n0 = flat.len();
    let n = chips.len();
    let hs = s2.hashes;
    if k == 0 {
        assert(import_chips(import_start(flat), chips, n0, 0).map == Map::<usize, usize>::empty());
    } else {
        lemma_reimport_steps(flat, chips, s2, base2, (k - 1) as nat);
        let p1 = import_chips(import_start(flat), chips, n0, (k - 1) as nat);
        let q1 = import_chips(import_start(flat), chips, n0, k);
        let h = content_hash(chips[k - 1], p1.map);
        lemma_import_shape(flat, chips, (k - 1) as nat);
        lemma_import_grows(flat, chips, (k - 1) as nat, n);
        lemma_import_grows(flat, chips, k, n);
        match first_match(p1.hashes, h) {
            Some(pos) => {
                lemma_first_match_prefix(hs, h, p1.hashes.len());
                assert(first_match(hs, h) == Some(pos));
            },
            None => {
                lemma_first_match_push(p1.hashes, h, h);
                assert(q1.hashes == p1.hashes.push(h));
                lemma_first_match_prefix(hs, h, q1.hashes.len());
                assert(first_match(hs, h) == Some(p1.hashes.len()));
            },
        }
    }
}

/// Importing a project a second time adds nothing: every chip is found by
/// its content among the chips that the first import stored, and maps to
/// the same library index as the first time. This holds for projects whose
/// chips only use earlier chips of the project as sub-chips.
pub proof fn law_reimport_adds_nothing(flat: Seq<BlueprintModel>, chips: Seq<BlueprintModel>)
    requires
        refs_earlier(chips),
        chips.len() < usize::MAX,
    ensures
        ({
            let first = import_chips(import_start(flat), chips, flat.len(), chips.len());
            let after = flat + first.imports.map_values(|b: BlueprintModel| relinked(b, first.map));
            let second = import_chips(import_start(after), chips, after.len(), chips.len());
            &&& second.imports.len() == 0
            &&& second.map == first.map
        }),
{
    let n0 = flat.len();
    let n = chips.len();
    let first = import_chips(import_start(flat), chips, n0, n);
    let m = first.map;
    lemma_import_shape(flat, chips, n);
    lemma_import_hashes(flat, chips, n, m);
    let after = flat + first.imports.map_values(|b: BlueprintModel| relinked(b, m));
    let s1 = import_start(after);
    assert(s1.hashes =~= first.hashes) by {
        assert forall|j: int| 0 <= j < after.len() implies #[trigger] s1.hashes[j] == first.hashes[j] by {
            if j >= n0 {
                let t = j - n0;
                assert(first.hashes[n0 + t] == content_hash(relinked(first.imports[t], m), Map::empty()));
            }
        }
    }
    lemma_reimport_steps(flat, chips, s1, after.len(), n);
}

/// The library form of `law_reimport_adds_nothing`: after a project is
/// imported into a library whose chips are all ungrouped, importing it
/// again adds no chip and gives the same index map.
pub proof fn law_reimport_into_library(before: GlobalLibrary, after: GlobalLibrary, chips: Seq<ChipBlueprint>)
    requires
        folder_chips(before.folders@).len() == 0,
        refs_earlier(models(chips)),
        chips.len() < usize::MAX,
        models(after.flat()) == imported_flat(
            models(before.ungrouped@),
            models(folder_chips(before.folders@)),
            models(chips),
        ),
    ensures
        import_outcome(after.flat(), chips).imports.len() == 0,
        import_outcome(after.flat(), chips).map == import_outcome(before.flat(), chips).map,
{
    let ug = models(before.ungrouped@);
    let fo = models(folder_chips(before.folders@));
    assert(fo =~= Seq::<BlueprintModel>::empty());
    assert(before.flat() =~= before.ungrouped@);
    assert(ug + fo =~= ug);
    assert(models(before.flat()) == ug);
    let u = ug.len();
    let first = import_chips(import_start(ug), models(chips), u, chips.len());
    let k = first.imports.len();
    assert(first == import_outcome(before.flat(), chips));
    assert(ug.map_values(|b: BlueprintModel| shifted(b, u, u, k)) =~= ug) by {
        assert forall|j: int| 0 <= j < ug.len() implies #[trigger] shifted(ug[j], u, u, k) == ug[j] by {
            lemma_shift_nothing(ug[j], u, k);
        }
    }
    assert(placed_map(first.map, u, u, k) =~= first.map);
    assert(fo.map_values(|b: BlueprintModel| shifted(b, u, u, k)) =~= Seq::<BlueprintModel>::empty());
    assert(models(after.flat()) =~= ug + first.imports.map_values(|b: BlueprintModel| relinked(b, first.map)));
    assert(models(after.flat()).len() == after.flat().len());
    law_reimport_adds_nothing(ug, models(chips));
}

/// Moving no chips leaves a chip as it is.
proof fn lemma_shift_nothing(b: BlueprintModel, u: nat, k: nat)
    ensures
        shifted(b, u, u, k) == b,
{
    assert(shifted(b, u, u, k).components =~= b.components);
}

/// The map of an import names, for every project chip, the chip of the new
/// flat list that stands for it: the library chip that has its content
/// (renumbered to follow the insertion), or the chip it was stored as.
pub proof fn law_import_map_names_the_stored_chip(
    ungrouped: Seq<BlueprintModel>,
    in_folders: Seq<BlueprintModel>,
    chips: Seq<BlueprintModel>,
    i: usize,
)
    requires
        i < chips.len(),
        ungrouped.len() + in_folders.len() + chips.len() < usize::MAX,
    ensures
        ({
            let u = ungrouped.len();
            let n = u + in_folders.len();
            let old_flat = ungrouped + in_folders;
            let o = import_chips(import_start(old_flat), chips, n, chips.len());
            let k = o.imports.len();
            let r = placed_map(o.map, u, n, k);
            let new_flat = imported_flat(ungrouped, in_folders, chips);
            &&& r.contains_key(i)
            &&& r[i] < new_flat.len()
            &&& new_flat[r[i] as int] == if o.map[i] < n {
                shifted(old_flat[o.map[i] as int], u, n, k)
            } else {
                relinked(o.imports[o.map[i] - n], r)
            }
        }),
{
    let u = ungrouped.len();
    let n = u + in_folders.len();
    let old_flat = ungrouped + in_folders;
    assert(old_flat.len() == n);
    lemma_import_shape(old_flat, chips, chips.len());
    lemma_import_map_bound(old_flat, chips, chips.len());
    let o = import_chips(import_start(old_flat), chips, n, chips.len());
    assert(o.map.contains_key(i));
    let v = o.map[i];
    let k = o.imports.len();
    let r = placed_map(o.map, u, n, k);
    let a = ungrouped.map_values(|b: BlueprintModel| shifted(b, u, n, k));
    let b = o.imports.map_values(|b: BlueprintModel| relinked(b, r));
    let c = in_folders.map_values(|b: BlueprintModel| shifted(b, u, n, k));
    let new_flat = imported_flat(ungrouped, in_folders, chips);
    assert(new_flat == a + b + c);
    assert(r[i] == placed(v, u, n, k));
    assert(v < n + k);
    if v < u {
        assert(old_flat[v as int] == ungrouped[v as int]);
        assert(new_flat[v as int] == a[v as int]);
    } else if v < n {
        assert(old_flat[v as int] == in_folders[v - u]);
        assert(new_flat[v + k] == c[v - u]);
    } else {
        assert(new_flat[u + (v - n)] == b[v - n]);
    }
}

// ---------------------------------------------------------------------------
// Names of imported chips
// ---------------------------------------------------------------------------

/// Searching upward from suffix `j` finds a least free suffix.
proof fn lemma_least_free_from(name: Seq<char>, names: Seq<Seq<char>>, k0: nat, j: nat)
    requires
        1 <= j <= k0,
        !names.contains(suffixed(name, k0)),
        forall|i: nat| 1 <= i < j ==> names.contains(#[trigger] suffixed(name, i)),
    ensures
        exists|k: nat| is_least_free_suffix(name, names, k),
    decreases k0 - j,
{
    if !names.contains(suffixed(name, j)) {
        assert(is_least_free_suffix(name, names, j));
    } else {
        assert forall|i: nat| 1 <= i < j + 1 implies names.contains(#[trigger] suffixed(name, i)) by {
            if i < j {
            }
        }
        lemma_least_free_from(name, names, k0, j + 1);
    }
}

/// The name that an import gives a chip is not among the names it is
/// compared with.
pub proof fn lemma_fresh_name_is_new(name: Seq<char>, names: Seq<Seq<char>>)
    ensures
        !names.contains(fresh_name(name, names)),
{
    if names.contains(name) {
        lemma_free_suffix_exists(name, names);
        let k0 = choose|k: nat| 1 <= k <= names.len() + 1 && !names.contains(#[trigger] suffixed(name, k));
        lemma_least_free_from(name, names, k0, 1);
    }
}

pub open spec fn chip_names(bs: Seq<BlueprintModel>) -> Seq<Seq<char>> {
    bs.map_values(|b: BlueprintModel| b.name)
}

/// The names an import compares with are those of the library followed by
/// those of the chips imported so far, and each imported chip got a name
/// that none of those before it has.
proof fn lemma_import_names(flat: Seq<BlueprintModel>, chips: Seq<BlueprintModel>, k: nat)
    ensures
        import_chips(import_start(flat), chips, flat.len(), k).names == chip_names(flat) + chip_names(
            import_chips(import_start(flat), chips, flat.len(), k).imports,
        ),
        forall|t: int|
            0 <= t < import_chips(import_start(flat), chips, flat.len(), k).imports.len() ==> !(chip_names(flat)
                + chip_names(import_chips(import_start(flat), chips, flat.len(), k).imports.take(t))).contains(
                (#[trigger] import_chips(import_start(flat), chips, flat.len(), k).imports[t]).name,
            ),
    decreases k,
{
    let s = import_chips(import_start(flat), chips, flat.len(), k);
    if k == 0 {
        assert(s.names =~= chip_names(flat) + chip_names(s.imports));
    } else {
        lemma_import_names(flat, chips, (k - 1) as nat);
        let p = import_chips(import_start(flat), chips, flat.len(), (k - 1) as nat);
        let chip = chips[k - 1];
        let h = content_hash(chip, p.map);
        if first_match(p.hashes, h) is None {
            let name = fresh_name(chip.name, p.names);
            lemma_fresh_name_is_new(chip.name, p.names);
            assert(s.imports == p.imports.push(BlueprintModel { name, ..chip }));
            assert(chip_names(s.imports) =~= chip_names(p.imports).push(name));
            assert(s.names =~= chip_names(flat) + chip_names(s.imports));
            assert forall|t: int| 0 <= t < s.imports.len() implies !(chip_names(flat) + chip_names(
                s.imports.take(t),
            )).contains((#[trigger] s.imports[t]).name) by {
                if t < p.imports.len() {
                    assert(s.imports.take(t) =~= p.imports.take(t));
                    assert(s.imports[t] == p.imports[t]);
                } else {
                    assert(s.imports.take(t) =~= p.imports);
                    assert(chip_names(flat) + chip_names(p.imports) =~= p.names);
                }
            }
        }
    }
}

/// Imported chips are renamed so that none takes a name that a chip of the
/// library, or a chip imported before it, already has.
pub proof fn law_imported_names_are_new(flat: Seq<BlueprintModel>, chips: Seq<BlueprintModel>)
    ensures
        ({
            let imports = import_chips(import_start(flat), chips, flat.len(), chips.len()).imports;
            forall|t: int|
                0 <= t < imports.len() ==> !(chip_names(flat) + chip_names(imports.take(t))).contains(
                    (#[trigger] imports[t]).name,
                )
        }),
{
    lemma_import_names(flat, chips, chips.len());
}

} // verus!
