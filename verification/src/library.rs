use vstd::prelude::*;

use crate::types::{BlueprintModel, ChipBlueprint};

verus! {

/// A folder within the global chip library for organisation. (The folder's
/// accent colour is presentation data kept by the application.)
pub struct ChipFolder {
    pub name: String,
    pub chips: Vec<ChipBlueprint>,
}

/// The global chip library, persisted across projects.
pub struct GlobalLibrary {
    /// Organised chip folders.
    pub folders: Vec<ChipFolder>,
    /// Chips not yet placed in any folder.
    pub ungrouped: Vec<ChipBlueprint>,
}

impl Default for GlobalLibrary {
    fn default() -> (lib: Self)
        ensures
            lib.folders@.len() == 0,
            lib.ungrouped@.len() == 0,
    {
        GlobalLibrary { folders: Vec::new(), ungrouped: Vec::new() }
    }
}

/// Where a chip stands in the global library.
#[derive(Debug, Clone, Copy, PartialEq, Eq, Structural)]
pub enum ChipLocation {
    Ungrouped(usize),
    /// (folder index, chip index within the folder)
    InFolder(usize, usize),
}

/// The chips of `folders`, folder after folder.
pub open spec fn folder_chips(folders: Seq<ChipFolder>) -> Seq<ChipBlueprint>
    decreases folders.len(),
{
    if folders.len() == 0 {
        Seq::empty()
    } else {
        folder_chips(folders.drop_last()) + folders.last().chips@
    }
}

pub open spec fn models(s: Seq<ChipBlueprint>) -> Seq<BlueprintModel> {
    s.map_values(|b: ChipBlueprint| b@)
}

impl GlobalLibrary {
    /// The library as one list: ungrouped chips first, then the chips of
    /// each folder in folder order. This is the order of the engine library.
    pub open spec fn flat(&self) -> Seq<ChipBlueprint> {
        self.ungrouped@ + folder_chips(self.folders@)
    }

    /// The flat index of the first chip of folder `f`.
    pub open spec fn folder_start(&self, f: int) -> nat {
        self.ungrouped@.len() + folder_chips(self.folders@.take(f)).len()
    }

    /// The chip that a location names.
    pub open spec fn chip_at(&self, loc: ChipLocation) -> ChipBlueprint {
        match loc {
            ChipLocation::Ungrouped(i) => self.ungrouped@[i as int],
            ChipLocation::InFolder(f, c) => self.folders@[f as int].chips@[c as int],
        }
    }

    /// The location names a chip of the library.
    pub open spec fn location_valid(&self, loc: ChipLocation) -> bool {
        match loc {
            ChipLocation::Ungrouped(i) => i < self.ungrouped@.len(),
            ChipLocation::InFolder(f, c) => f < self.folders@.len() && c < self.folders@[f as int].chips@.len(),
        }
    }

    /// The flat index of a location.
    pub open spec fn flat_index(&self, loc: ChipLocation) -> nat {
        match loc {
            ChipLocation::Ungrouped(i) => i as nat,
            ChipLocation::InFolder(f, c) => self.folder_start(f as int) + c as nat,
        }
    }

    /// The folder names, in order.
    pub open spec fn folder_names(&self) -> Seq<Seq<char>> {
        self.folders@.map_values(|f: ChipFolder| f.name@)
    }
}

// ---------------------------------------------------------------------------
// Lemmas on the flat list
// ---------------------------------------------------------------------------

/// The chips of two runs of folders are the chips of the first run followed
/// by those of the second.
pub proof fn lemma_folder_chips_concat(x: Seq<ChipFolder>, y: Seq<ChipFolder>)
    ensures
        folder_chips(x + y) == folder_chips(x) + folder_chips(y),
    decreases y.len(),
{
    if y.len() == 0 {
        assert(x + y =~= x);
        assert(folder_chips(x) + folder_chips(y) =~= folder_chips(x));
    } else {
        lemma_folder_chips_concat(x, y.drop_last());
        assert((x + y).drop_last() =~= x + y.drop_last());
        assert((x + y).last() == y.last());
        assert(folder_chips(x + y) =~= folder_chips(x) + folder_chips(y));
    }
}

/// The chips of the folders split at folder `f`: those before it, its own,
/// and those after it.
pub proof fn lemma_folder_chips_split(folders: Seq<ChipFolder>, f: int)
    requires
        0 <= f < folders.len(),
    ensures
        folder_chips(folders) == folder_chips(folders.take(f)) + folders[f].chips@ + folder_chips(
            folders.skip(f + 1),
        ),
{
    let a = folders.take(f);
    let b = seq![folders[f]];
    let c = folders.skip(f + 1);
    assert(folders =~= a + b + c);
    lemma_folder_chips_concat(a + b, c);
    lemma_folder_chips_concat(a, b);
    assert(b.drop_last() =~= Seq::<ChipFolder>::empty());
    assert(folder_chips(b.drop_last()) == Seq::<ChipBlueprint>::empty());
    assert(b.last() == folders[f]);
    assert(folder_chips(b) =~= folders[f].chips@);
}

/// The chips of the first `f + 1` folders.
pub proof fn lemma_folder_chips_take(folders: Seq<ChipFolder>, f: int)
    requires
        0 <= f < folders.len(),
    ensures
        folder_chips(folders.take(f + 1)) == folder_chips(folders.take(f)) + folders[f].chips@,
{
    assert(folders.take(f + 1).drop_last() =~= folders.take(f));
}

/// Replacing folder `f` by `g` replaces its chips in the flat list.
pub proof fn lemma_folder_chips_update(folders: Seq<ChipFolder>, f: int, g: ChipFolder)
    requires
        0 <= f < folders.len(),
    ensures
        folder_chips(folders.update(f, g)) == folder_chips(folders.take(f)) + g.chips@ + folder_chips(
            folders.skip(f + 1),
        ),
{
    let u = folders.update(f, g);
    lemma_folder_chips_split(u, f);
    assert(u.take(f) =~= folders.take(f));
    assert(u.skip(f + 1) =~= folders.skip(f + 1));
}

impl GlobalLibrary {
    /// A valid location's flat index is within the flat list, and the flat
    /// list holds the location's chip there.
    pub proof fn lemma_location_in_flat(&self, loc: ChipLocation)
        requires
            self.location_valid(loc),
        ensures
            self.flat_index(loc) < self.flat().len(),
            self.flat()[self.flat_index(loc) as int] == self.chip_at(loc),
    {
        match loc {
            ChipLocation::Ungrouped(i) => {},
            ChipLocation::InFolder(f, c) => {
                lemma_folder_chips_split(self.folders@, f as int);
            },
        }
    }
}

/// Two valid locations with the same flat index are the same location.
pub proof fn law_locations_are_unique(lib: &GlobalLibrary, a: ChipLocation, b: ChipLocation)
    requires
        lib.location_valid(a),
        lib.location_valid(b),
        lib.flat_index(a) == lib.flat_index(b),
    ensures
        a == b,
{
    match (a, b) {
        (ChipLocation::InFolder(f1, c1), ChipLocation::InFolder(f2, c2)) => {
            if f1 < f2 {
                lemma_folder_start_mono(lib, f1 as int, f2 as int);
            } else if f2 < f1 {
                lemma_folder_start_mono(lib, f2 as int, f1 as int);
            }
        },
        _ => {},
    }
}

/// A later folder starts after the end of every earlier one.
pub proof fn lemma_folder_start_mono(lib: &GlobalLibrary, f: int, g: int)
    requires
        0 <= f < g <= lib.folders@.len(),
    ensures
        lib.folder_start(f) + lib.folders@[f].chips@.len() <= lib.folder_start(g),
    decreases g - f,
{
    lemma_folder_chips_take(lib.folders@, g - 1);
    if f < g - 1 {
        lemma_folder_start_mono(lib, f, g - 1);
    }
}

/// Copies of the blueprints of `v`.
fn clone_chips(v: &Vec<ChipBlueprint>) -> (r: Vec<ChipBlueprint>)
    ensures
        models(r@) == models(v@),
{
    let mut r: Vec<ChipBlueprint> = Vec::new();
    let mut i: usize = 0;
    while i < v.len()
        invariant
            i <= v@.len(),
            models(r@) == models(v@.take(i as int)),
        decreases v@.len() - i,
    {
        r.push(v[i].clone());
        proof {
            assert(models(v@.take(i + 1)) =~= models(v@.take(i as int)).push(v@[i as int]@));
            assert(models(r@) =~= models(v@.take(i as int)).push(v@[i as int]@));
        }
        i += 1;
    }
    proof {
        assert(v@.take(v@.len() as int) =~= v@);
    }
    r
}

impl GlobalLibrary {
    /// Flatten the library into a single Vec for the engine, preserving order:
    /// ungrouped chips first, then folder chips in folder order.
    pub fn to_flat_list(&self) -> (r: Vec<ChipBlueprint>)
        ensures
            models(r@) == models(self.flat()),
    {
        let mut result = clone_chips(&self.ungrouped);
        let nf = self.folders.len();
        let mut f: usize = 0;
        proof {
            assert(self.folders@.take(0) =~= Seq::<ChipFolder>::empty());
            assert(self.ungrouped@ + folder_chips(self.folders@.take(0)) =~= self.ungrouped@);
        }
        while f < nf
            invariant
                nf == self.folders@.len(),
                f <= nf,
                models(result@) == models(self.ungrouped@ + folder_chips(self.folders@.take(f as int))),
            decreases nf - f,
        {
            let mut copies = clone_chips(&self.folders[f].chips);
            let ghost before = result@;
            proof {
                lemma_folder_chips_take(self.folders@, f as int);
            }
            result.append(&mut copies);
            proof {
                assert(models(result@) =~= models(before) + models(self.folders@[f as int].chips@));
                assert(models(self.ungrouped@ + folder_chips(self.folders@.take(f + 1))) =~= models(
                    self.ungrouped@ + folder_chips(self.folders@.take(f as int)),
                ) + models(self.folders@[f as int].chips@));
            }
            f += 1;
        }
        proof {
            assert(self.folders@.take(nf as int) =~= self.folders@);
        }
        result
    }

    /// Find the (folder_index, chip_index) for a chip at a given flat index.
    /// Returns None if out of bounds.
    pub fn flat_index_to_location(&self, flat_idx: usize) -> (r: Option<ChipLocation>)
        ensures
            match r {
                None => flat_idx >= self.flat().len(),
                Some(loc) => self.location_valid(loc) && self.flat_index(loc) == flat_idx,
            },
    {
        if flat_idx < self.ungrouped.len() {
            return Some(ChipLocation::Ungrouped(flat_idx));
        }
        let mut remaining = flat_idx - self.ungrouped.len();
        let nf = self.folders.len();
        let mut fi: usize = 0;
        while fi < nf
            invariant
                nf == self.folders@.len(),
                fi <= nf,
                flat_idx >= self.ungrouped@.len(),
                remaining + self.folder_start(fi as int) == flat_idx,
            decreases nf - fi,
        {
            proof {
                lemma_folder_chips_take(self.folders@, fi as int);
            }
            if remaining < self.folders[fi].chips.len() {
                return Some(ChipLocation::InFolder(fi, remaining));
            }
            remaining -= self.folders[fi].chips.len();
            fi += 1;
        }
        proof {
            assert(self.folders@.take(nf as int) =~= self.folders@);
        }
        None
    }

    /// Move a chip from one location to another folder (or ungrouped).
    pub fn move_chip(&mut self, from: ChipLocation, to_folder: Option<usize>)
        ensures
            !old(self).location_valid(from) ==> *final(self) == *old(self),
            old(self).location_valid(from) ==> {
                &&& final(self).folders@.len() == old(self).folders@.len()
                &&& final(self).folder_names() == old(self).folder_names()
                &&& final(self).ungrouped@ == appended_if(
                    removed_from_ungrouped(old(self).ungrouped@, from),
                    old(self).chip_at(from),
                    !target_folder_valid(to_folder, old(self).folders@.len()),
                )
                &&& forall|f: int|
                    0 <= f < old(self).folders@.len() ==> (#[trigger] final(self).folders@[f]).chips@
                        == appended_if(
                        removed_from_folder(old(self).folders@[f].chips@, f, from),
                        old(self).chip_at(from),
                        to_folder == Some(f as usize),
                    )
            },
            // A move loses no chip and duplicates none.
            final(self).flat().to_multiset() == old(self).flat().to_multiset(),
    {
        let ghost old_lib = *self;
        let chip = match self.take_chip(from) {
            Some(c) => c,
            None => {
                return;
            },
        };
        let ghost mid = *self;
        self.put_chip(chip, to_folder);
        proof {
            assert(self.folder_names() =~= old_lib.folder_names());
            old_lib.lemma_location_in_flat(from);
            lemma_move_keeps_multiset(
                old_lib.flat(),
                old_lib.flat_index(from) as int,
                mid.put_index(to_folder),
                self.flat(),
            );
        }
    }

    /// The flat index at which `put_chip` places a chip.
    pub open spec fn put_index(&self, to_folder: Option<usize>) -> int {
        match to_folder {
            Some(f) => if f < self.folders@.len() {
                (self.folder_start(f as int) + self.folders@[f as int].chips@.len()) as int
            } else {
                self.ungrouped@.len() as int
            },
            None => self.ungrouped@.len() as int,
        }
    }

    /// Takes the chip at `from` out of the library.
    fn take_chip(&mut self, from: ChipLocation) -> (r: Option<ChipBlueprint>)
        ensures
            !old(self).location_valid(from) ==> r is None && *final(self) == *old(self),
            old(self).location_valid(from) ==> {
                &&& r == Some(old(self).chip_at(from))
                &&& final(self).folders@.len() == old(self).folders@.len()
                &&& final(self).folder_names() == old(self).folder_names()
                &&& final(self).ungrouped@ == removed_from_ungrouped(old(self).ungrouped@, from)
                &&& forall|f: int|
                    0 <= f < old(self).folders@.len() ==> (#[trigger] final(self).folders@[f]).chips@
                        == removed_from_folder(old(self).folders@[f].chips@, f, from)
                &&& final(self).flat() == old(self).flat().remove(old(self).flat_index(from) as int)
            },
    {
        let ghost old_lib = *self;
        match from {
            ChipLocation::Ungrouped(idx) => {
                if idx < self.ungrouped.len() {
                    let c = self.ungrouped.remove(idx);
                    proof {
                        assert(self.flat() =~= old_lib.flat().remove(idx as int));
                        assert(self.folder_names() =~= old_lib.folder_names());
                    }
                    Some(c)
                } else {
                    None
                }
            },
            ChipLocation::InFolder(fi, ci) => {
                if fi < self.folders.len() && ci < self.folders[fi].chips.len() {
                    let c = self.folders[fi].chips.remove(ci);
                    proof {
                        lemma_folder_chips_split(old_lib.folders@, fi as int);
                        assert(self.folders@ == old_lib.folders@.update(fi as int, self.folders@[fi as int]));
                        lemma_folder_chips_update(old_lib.folders@, fi as int, self.folders@[fi as int]);
                        let u = old_lib.ungrouped@;
                        let a = folder_chips(old_lib.folders@.take(fi as int));
                        let b = old_lib.folders@[fi as int].chips@;
                        let d = folder_chips(old_lib.folders@.skip(fi + 1));
                        assert(u + (a + b.remove(ci as int) + d) =~= (u + (a + b + d)).remove(
                            old_lib.flat_index(from) as int,
                        ));
                        assert(self.folder_names() =~= old_lib.folder_names());
                    }
                    Some(c)
                } else {
                    None
                }
            },
        }
    }

    /// Puts `chip` at the end of folder `to_folder`, or of the ungrouped
    /// chips when that names no folder.
    fn put_chip(&mut self, chip: ChipBlueprint, to_folder: Option<usize>)
        ensures
            final(self).folders@.len() == old(self).folders@.len(),
            final(self).folder_names() == old(self).folder_names(),
            final(self).ungrouped@ == appended_if(
                old(self).ungrouped@,
                chip,
                !target_folder_valid(to_folder, old(self).folders@.len()),
            ),
            forall|f: int|
                0 <= f < old(self).folders@.len() ==> (#[trigger] final(self).folders@[f]).chips@ == appended_if(
                    old(self).folders@[f].chips@,
                    chip,
                    to_folder == Some(f as usize),
                ),
            0 <= old(self).put_index(to_folder) <= old(self).flat().len(),
            final(self).flat() == old(self).flat().insert(old(self).put_index(to_folder), chip),
    {
        let ghost old_lib = *self;
        match to_folder {
            Some(fi) if fi < self.folders.len() => {
                self.folders[fi].chips.push(chip);
                proof {
                    lemma_folder_chips_split(old_lib.folders@, fi as int);
                    lemma_folder_chips_take(old_lib.folders@, fi as int);
                    assert(self.folders@ == old_lib.folders@.update(fi as int, self.folders@[fi as int]));
                    lemma_folder_chips_update(old_lib.folders@, fi as int, self.folders@[fi as int]);
                    let u = old_lib.ungrouped@;
                    let a = folder_chips(old_lib.folders@.take(fi as int));
                    let b = old_lib.folders@[fi as int].chips@;
                    let d = folder_chips(old_lib.folders@.skip(fi + 1));
                    assert(u + (a + b.push(chip) + d) =~= (u + (a + b + d)).insert(
                        old_lib.put_index(to_folder),
                        chip,
                    ));
                }
            },
            _ => {
                self.ungrouped.push(chip);
                proof {
                    assert(self.flat() =~= old_lib.flat().insert(old_lib.put_index(to_folder), chip));
                }
            },
        }
        proof {
            assert(self.folder_names() =~= old_lib.folder_names());
        }
    }
}

/// Taking an element out of a sequence and putting it back anywhere keeps
/// the multiset of its elements.
proof fn lemma_move_keeps_multiset(a: Seq<ChipBlueprint>, i: int, j: int, b: Seq<ChipBlueprint>)
    requires
        0 <= i < a.len(),
        0 <= j < a.len(),
        b == a.remove(i).insert(j, a[i]),
    ensures
        b.to_multiset() == a.to_multiset(),
{
    broadcast use vstd::seq_lib::group_to_multiset_ensures, vstd::multiset::group_multiset_axioms;

    assert(a.remove(i).to_multiset() == a.to_multiset().remove(a[i]));
    assert(b.to_multiset() == a.remove(i).to_multiset().insert(a[i]));
    assert(a.to_multiset().count(a[i]) > 0);
    assert(b.to_multiset() =~= a.to_multiset());
}

/// `s` with `x` pushed on when `cond` holds.
pub open spec fn appended_if(s: Seq<ChipBlueprint>, x: ChipBlueprint, cond: bool) -> Seq<ChipBlueprint> {
    if cond {
        s.push(x)
    } else {
        s
    }
}

/// The ungrouped chips after the chip at `from` is taken out.
pub open spec fn removed_from_ungrouped(s: Seq<ChipBlueprint>, from: ChipLocation) -> Seq<ChipBlueprint> {
    match from {
        ChipLocation::Ungrouped(i) => s.remove(i as int),
        _ => s,
    }
}

/// The chips of folder `f` after the chip at `from` is taken out.
pub open spec fn removed_from_folder(s: Seq<ChipBlueprint>, f: int, from: ChipLocation) -> Seq<ChipBlueprint> {
    match from {
        ChipLocation::InFolder(g, c) => if g == f {
            s.remove(c as int)
        } else {
            s
        },
        _ => s,
    }
}

/// The destination folder index names a folder.
pub open spec fn target_folder_valid(to_folder: Option<usize>, n: nat) -> bool {
    match to_folder {
        Some(f) => f < n,
        None => false,
    }
}

impl GlobalLibrary {
    /// Remove a chip at the given flat index. Returns the removed chip if any.
    pub fn remove_at_flat_index(&mut self, flat_idx: usize) -> (r: Option<ChipBlueprint>)
        ensures
            flat_idx >= old(self).flat().len() ==> r is None && *final(self) == *old(self),
            flat_idx < old(self).flat().len() ==> {
                &&& r == Some(old(self).flat()[flat_idx as int])
                &&& final(self).flat() == old(self).flat().remove(flat_idx as int)
                &&& final(self).folder_names() == old(self).folder_names()
            },
    {
        let ghost old_lib = *self;
        match self.flat_index_to_location(flat_idx) {
            Some(ChipLocation::Ungrouped(idx)) => {
                proof {
                    old_lib.lemma_location_in_flat(ChipLocation::Ungrouped(idx));
                }
                let chip = self.ungrouped.remove(idx);
                proof {
                    assert(self.flat() =~= old_lib.flat().remove(flat_idx as int));
                    assert(self.folder_names() =~= old_lib.folder_names());
                }
                Some(chip)
            },
            Some(ChipLocation::InFolder(fi, ci)) => {
                proof {
                    old_lib.lemma_location_in_flat(ChipLocation::InFolder(fi, ci));
                    lemma_folder_chips_split(old_lib.folders@, fi as int);
                }
                let chip = self.folders[fi].chips.remove(ci);
                proof {
                    assert(self.folders@ == old_lib.folders@.update(fi as int, self.folders@[fi as int]));
                    lemma_folder_chips_update(old_lib.folders@, fi as int, self.folders@[fi as int]);
                    let u = old_lib.ungrouped@;
                    let a = folder_chips(old_lib.folders@.take(fi as int));
                    let b = old_lib.folders@[fi as int].chips@;
                    let c = folder_chips(old_lib.folders@.skip(fi + 1));
                    assert(u + (a + b.remove(ci as int) + c) =~= (u + (a + b + c)).remove(flat_idx as int));
                    assert(self.folder_names() =~= old_lib.folder_names());
                }
                Some(chip)
            },
            None => None,
        }
    }
}

} // verus!
