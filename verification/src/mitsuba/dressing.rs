//! Meshes whose triangles have the materials that their file names.
//!
//! The materials come out of the libraries that the file refers to, in that order; of each name
//! the first definition counts. Only materials that triangles use are numbered.

use super::library::{material_of, mtl_to_material, MtlNumbers};
use super::materials::{
    default_material, fallback_material, image_models, opt_number, Image, ImageModel,
};
use super::props::{warn3, warn5};
use super::tables::{in_step, numbers, with_material, SceneTables, TablesModel};
use crate::mtl::{material_models, material_names, opt_text, MtlFile, MtlModel};
use crate::obj::{lemma_name_index, name_index, strings};
use crate::reals::SINGLE_ONE;
use crate::text::chars_of;
use vstd::prelude::*;

verus! {

/// A material library that a mesh refers to.
pub struct Library {
    pub path: String,
    /// The directory that it is in.
    pub dir: String,
    /// What went wrong if it could not be read.
    pub error: Option<String>,
    pub file: MtlFile,
    /// The numbers of each of its materials.
    pub numbers: Vec<MtlNumbers>,
}

pub struct LibraryFile {
    pub path: Seq<char>,
    pub dir: Seq<char>,
    pub error: Option<Seq<char>>,
    pub materials: Seq<MtlModel>,
    pub names: Seq<Seq<char>>,
    pub dup_names: Seq<Seq<char>>,
    pub numbers: Seq<MtlNumbers>,
}

impl View for Library {
    type V = LibraryFile;

    open spec fn view(&self) -> LibraryFile {
        LibraryFile {
            path: self.path@,
            dir: self.dir@,
            error: opt_text(self.error),
            materials: material_models(self.file.materials@),
            names: material_names(self.file.materials@),
            dup_names: strings(self.file.dup_names@),
            numbers: self.numbers@,
        }
    }
}

pub open spec fn library_files(v: Seq<Library>) -> Seq<LibraryFile> {
    v.map_values(|l: Library| l@)
}

/// Whether the numbers of all materials are there.
pub open spec fn complete_libraries(v: Seq<Library>) -> bool {
    forall|i: int|
        0 <= i < v.len() ==> (#[trigger] v[i]).numbers@.len() == v[i].file.materials@.len()
}

/// The warnings about names that a library defines twice.
pub open spec fn duplicate_warnings(path: Seq<char>, names: Seq<Seq<char>>) -> Seq<Seq<char>>
    decreases names.len(),
{
    if names.len() == 0 {
        Seq::empty()
    } else {
        duplicate_warnings(path, names.drop_last()).push(
            ""@ + path + ": duplicate newmtl '"@ + names.last()
                + "'; keeping the first definition"@,
        )
    }
}

/// What reading a library warns of.
pub open spec fn library_warnings(l: LibraryFile) -> Seq<Seq<char>> {
    match l.error {
        Some(e) => seq![
            "failed to read mtl '"@ + l.path + "': "@ + e + "; using default materials"@,
        ],
        None => duplicate_warnings(l.path, l.dup_names),
    }
}

pub open spec fn all_library_warnings(l: Seq<LibraryFile>) -> Seq<Seq<char>>
    decreases l.len(),
{
    if l.len() == 0 {
        Seq::empty()
    } else {
        all_library_warnings(l.drop_last()) + library_warnings(l.last())
    }
}

/// Where the material of a name is: the number of the library, and that within it.
pub open spec fn material_at(l: Seq<LibraryFile>, name: Seq<char>) -> Option<(int, int)>
    decreases l.len(),
{
    if l.len() == 0 {
        None
    } else {
        let i = name_index(l[0].names, name);
        if l[0].error is None && i < l[0].names.len() {
            Some((0, i))
        } else {
            match material_at(l.skip(1), name) {
                Some((k, j)) => Some((k + 1, j)),
                None => None,
            }
        }
    }
}

/// The materials of a mesh: the tables with them, the mask of each, how opaque it leaves them at
/// most, and the warnings.
pub struct Dressing {
    pub tables: TablesModel,
    pub masks: Seq<Option<int>>,
    pub opacities: Seq<u32>,
    pub warnings: Seq<Seq<char>>,
}

/// With the material of one more name.
pub open spec fn dress_one(
    d: Dressing,
    name: Seq<char>,
    l: Seq<LibraryFile>,
    images: Seq<ImageModel>,
) -> Dressing {
    match material_at(l, name) {
        Some((k, j)) => {
            let o = material_of(
                l[k].materials[j],
                l[k].numbers[j],
                l[k].dir,
                images,
                d.tables.registry,
                d.tables.library,
            );
            Dressing {
                tables: with_material(
                    TablesModel { registry: o.registry, library: o.library, ..d.tables },
                    o.material,
                    o.map,
                ),
                masks: d.masks.push(o.mask),
                opacities: d.opacities.push(o.opacity),
                warnings: d.warnings + o.warnings,
            }
        },
        None => Dressing {
            tables: with_material(d.tables, default_material(), None),
            masks: d.masks.push(None),
            opacities: d.opacities.push(SINGLE_ONE),
            warnings: if name.len() > 0 && l.len() > 0 {
                d.warnings.push(
                    "material '"@ + name + "' not found in mtl; defaulting to diffuse"@,
                )
            } else {
                d.warnings
            },
        },
    }
}

/// The materials of a mesh, by the names that its triangles use; `w` was warned of before.
pub open spec fn dress(
    t: TablesModel,
    w: Seq<Seq<char>>,
    names: Seq<Seq<char>>,
    l: Seq<LibraryFile>,
    images: Seq<ImageModel>,
) -> Dressing
    decreases names.len(),
{
    if names.len() == 0 {
        Dressing { tables: t, masks: Seq::empty(), opacities: Seq::empty(), warnings: w }
    } else {
        dress_one(dress(t, w, names.drop_last(), l, images), names.last(), l, images)
    }
}

/// The masks in use, each once, in the order in which materials first use them.
pub open spec fn distinct_masks(m: Seq<Option<int>>) -> Seq<int>
    decreases m.len(),
{
    if m.len() == 0 {
        Seq::empty()
    } else {
        let before = distinct_masks(m.drop_last());
        match m.last() {
            Some(x) => if before.contains(x) {
                before
            } else {
                before.push(x)
            },
            None => before,
        }
    }
}

/// Where a mask is, or how many there are.
pub open spec fn mask_index(m: Seq<int>, x: int) -> int
    decreases m.len(),
{
    if m.len() == 0 || m[0] == x {
        0
    } else {
        1 + mask_index(m.skip(1), x)
    }
}

/// For each material zero, or one more than the place of its mask.
pub open spec fn mask_slots(m: Seq<Option<int>>) -> Seq<int>
    decreases m.len(),
{
    if m.len() == 0 {
        Seq::empty()
    } else {
        mask_slots(m.drop_last()).push(
            match m.last() {
                Some(x) => 1 + mask_index(distinct_masks(m), x),
                None => 0,
            },
        )
    }
}

proof fn lemma_mask_index(m: Seq<int>, x: int)
    ensures
        0 <= mask_index(m, x) <= m.len(),
        mask_index(m, x) < m.len() ==> m[mask_index(m, x)] == x,
        m.contains(x) <==> mask_index(m, x) < m.len(),
        forall|k: int| 0 <= k < mask_index(m, x) ==> m[k] != x,
    decreases m.len(),
{
    if m.len() > 0 && m[0] != x {
        let t = m.skip(1);
        lemma_mask_index(t, x);
        if m.contains(x) {
            let k = choose|k: int| 0 <= k < m.len() && m[k] == x;
            assert(t[k - 1] == x);
            assert(t.contains(x));
        }
        if mask_index(m, x) < m.len() {
            assert(m[mask_index(m, x)] == x);
        }
        assert forall|k: int| 0 <= k < mask_index(m, x) implies m[k] != x by {
            if k > 0 {
                assert(t[k - 1] == m[k]);
            }
        }
    }
}

/// The slot of a material leads to its mask, and no mask is there twice.
pub proof fn slots_lead_to_masks(m: Seq<Option<int>>, i: int)
    requires
        0 <= i < m.len(),
    ensures
        mask_slots(m).len() == m.len(),
        match m[i] {
            Some(x) => 1 <= mask_slots(m)[i] <= distinct_masks(m).len() && distinct_masks(
                m,
            )[mask_slots(m)[i] - 1] == x,
            None => mask_slots(m)[i] == 0,
        },
        distinct_masks(m).no_duplicates(),
    decreases m.len(),
{
    lemma_masks(m);
    let d = m.drop_last();
    if i < d.len() {
        slots_lead_to_masks(d, i);
        lemma_masks(d);
        assert(d[i] == m[i]);
        assert(mask_slots(m)[i] == mask_slots(d)[i]);
    } else {
        lemma_slot_count(d);
        match m[i] {
            Some(x) => {
                lemma_mask_index(distinct_masks(m), x);
                if !distinct_masks(d).contains(x) {
                    assert(distinct_masks(m)[distinct_masks(d).len() as int] == x);
                }
                assert(distinct_masks(m).contains(x));
            },
            None => {},
        }
    }
}

proof fn lemma_slot_count(m: Seq<Option<int>>)
    ensures
        mask_slots(m).len() == m.len(),
    decreases m.len(),
{
    if m.len() > 0 {
        lemma_slot_count(m.drop_last());
    }
}

proof fn lemma_masks(m: Seq<Option<int>>)
    ensures
        mask_slots(m).len() == m.len(),
        distinct_masks(m).no_duplicates(),
        distinct_masks(m).len() <= m.len(),
        m.len() > 0 ==> distinct_masks(m.drop_last()).len() <= distinct_masks(m).len()
            && distinct_masks(m).take(distinct_masks(m.drop_last()).len() as int)
            == distinct_masks(m.drop_last()),
    decreases m.len(),
{
    lemma_slot_count(m);
    if m.len() > 0 {
        lemma_masks(m.drop_last());
        let b = distinct_masks(m.drop_last());
        assert(distinct_masks(m).take(b.len() as int) =~= b);
        assert forall|i: int, j: int|
            0 <= i < distinct_masks(m).len() && 0 <= j < distinct_masks(m).len() && i
                != j implies distinct_masks(m)[i] != distinct_masks(m)[j] by {
            match m.last() {
                Some(x) => if !b.contains(x) {
                    if i == b.len() {
                        assert(b.contains(b[j]));
                    } else if j == b.len() {
                        assert(b.contains(b[i]));
                    }
                },
                None => {},
            }
        }
    }
}

pub open spec fn opt_numbers(v: Seq<Option<usize>>) -> Seq<Option<int>> {
    v.map_values(|x: Option<usize>| opt_number(x))
}

/// Gives each material of a mesh the place of its mask.
pub fn assign_masks(m: &Vec<Option<usize>>) -> (r: (Vec<usize>, Vec<usize>))
    ensures
        numbers(r.0@) == distinct_masks(opt_numbers(m@)),
        numbers(r.1@) == mask_slots(opt_numbers(m@)),
{
    let ghost all = opt_numbers(m@);
    let mut masks: Vec<usize> = Vec::new();
    let mut slots: Vec<usize> = Vec::new();
    let n: usize = m.len();
    let mut i: usize = 0;
    proof {
        assert(all.take(0) =~= Seq::<Option<int>>::empty());
        assert(numbers(masks@) =~= Seq::<int>::empty());
        assert(numbers(slots@) =~= Seq::<int>::empty());
    }
    while i < n
        invariant
            i <= n,
            n == m@.len(),
            all == opt_numbers(m@),
            numbers(masks@) == distinct_masks(all.take(i as int)),
            numbers(slots@) == mask_slots(all.take(i as int)),
        decreases n - i,
    {
        let ghost t = all.take(i + 1);
        proof {
            assert(t.drop_last() =~= all.take(i as int));
            assert(t.last() == opt_number(m@[i as int]));
            lemma_masks(t);
            lemma_masks(all.take(i as int));
        }
        let ghost s0 = slots@;
        match m[i] {
            Some(x) => {
                let mut k: usize = 0;
                let count: usize = masks.len();
                let ghost d = numbers(masks@);
                assert(d.skip(0) =~= d);
                proof {
                    lemma_mask_index(d, x as int);
                }
                while k < count && masks[k] != x
                    invariant
                        k <= count,
                        count == masks@.len(),
                        d == numbers(masks@),
                        mask_index(d, x as int) == k + mask_index(d.skip(k as int), x as int),
                    decreases count - k,
                {
                    assert(d.skip(k as int)[0] == masks@[k as int]);
                    assert(d.skip(k as int).skip(1) =~= d.skip(k + 1));
                    k += 1;
                }
                proof {
                    if k < count {
                        assert(d.skip(k as int)[0] == masks@[k as int]);
                    }
                    assert(mask_index(d, x as int) == k);
                }
                if k == count {
                    let ghost m0 = masks@;
                    masks.push(x);
                    assert(numbers(masks@) =~= numbers(m0).push(x as int));
                    proof {
                        lemma_mask_index(numbers(masks@), x as int);
                        assert(numbers(masks@)[k as int] == x);
                        let j = mask_index(numbers(masks@), x as int);
                        if j < k {
                            assert(d[j] == x);
                        }
                    }
                }
                proof {
                    assert(numbers(masks@) == distinct_masks(t));
                    lemma_mask_index(distinct_masks(t), x as int);
                    assert(mask_index(distinct_masks(t), x as int) == k);
                    assert(numbers(masks@).len() == masks@.len());
                    assert(k < masks@.len());
                }
                slots.push(k + 1);
                assert(numbers(slots@) =~= numbers(s0).push(k + 1));
            },
            None => {
                slots.push(0);
                assert(numbers(slots@) =~= numbers(s0).push(0));
            },
        }
        i += 1;
    }
    assert(all.take(i as int) =~= all);
    (masks, slots)
}

/// The mask slot of each triangle, and how opaque the mask leaves it at most: those of its
/// material.
pub fn triangle_slots(mat_ids: &Vec<usize>, slots: &Vec<usize>, opacities: &Vec<u32>) -> (r: Vec<
    (usize, u32),
>)
    requires
        slots@.len() == opacities@.len(),
        forall|i: int| 0 <= i < mat_ids@.len() ==> #[trigger] mat_ids@[i] < slots@.len(),
    ensures
        r@.len() == mat_ids@.len(),
        forall|i: int|
            0 <= i < r@.len() ==> #[trigger] r@[i] == (
                slots@[mat_ids@[i] as int],
                opacities@[mat_ids@[i] as int],
            ),
{
    let mut r: Vec<(usize, u32)> = Vec::new();
    let mut i: usize = 0;
    while i < mat_ids.len()
        invariant
            i <= mat_ids@.len(),
            r@.len() == i,
            slots@.len() == opacities@.len(),
            forall|k: int| 0 <= k < mat_ids@.len() ==> #[trigger] mat_ids@[k] < slots@.len(),
            forall|k: int|
                0 <= k < i ==> #[trigger] r@[k] == (
                    slots@[mat_ids@[k] as int],
                    opacities@[mat_ids@[k] as int],
                ),
        decreases mat_ids@.len() - i,
    {
        r.push((slots[mat_ids[i]], opacities[mat_ids[i]]));
        i += 1;
    }
    r
}

fn warn_of_library(l: &Library, warnings: &mut Vec<String>)
    ensures
        strings(final(warnings)@) == strings(old(warnings)@) + library_warnings(l@),
{
    let ghost start = strings(warnings@);
    if let Some(e) = &l.error {
        warn5(
            warnings,
            "failed to read mtl '",
            l.path.as_str(),
            "': ",
            e.as_str(),
            "; using default materials",
        );
        assert(strings(warnings@) =~= start + library_warnings(l@));
        return;
    }
    let ghost all = l@.dup_names;
    let ghost path = l@.path;
    assert(all.take(0) =~= Seq::<Seq<char>>::empty());
    assert(strings(warnings@) =~= start + duplicate_warnings(path, all.take(0)));
    let mut i: usize = 0;
    while i < l.file.dup_names.len()
        invariant
            i <= l.file.dup_names@.len(),
            all == strings(l.file.dup_names@),
            path == l.path@,
            strings(warnings@) == start + duplicate_warnings(path, all.take(i as int)),
        decreases l.file.dup_names@.len() - i,
    {
        proof {
            assert(all.take(i + 1).drop_last() =~= all.take(i as int));
            assert(all.take(i + 1).last() == l.file.dup_names@[i as int]@);
        }
        warn5(
            warnings,
            "",
            l.path.as_str(),
            ": duplicate newmtl '",
            l.file.dup_names[i].as_str(),
            "'; keeping the first definition",
        );
        i += 1;
        assert(strings(warnings@) =~= start + duplicate_warnings(path, all.take(i as int)));
    }
    assert(all.take(i as int) =~= all);
}

/// Warns of what is wrong with the libraries of a mesh.
pub fn warn_of_libraries(v: &Vec<Library>, warnings: &mut Vec<String>)
    ensures
        strings(final(warnings)@) == strings(old(warnings)@) + all_library_warnings(
            library_files(v@),
        ),
{
    let ghost start = strings(warnings@);
    let ghost all = library_files(v@);
    assert(all.take(0) =~= Seq::<LibraryFile>::empty());
    assert(strings(warnings@) =~= start + all_library_warnings(all.take(0)));
    let mut i: usize = 0;
    while i < v.len()
        invariant
            i <= v@.len(),
            all == library_files(v@),
            strings(warnings@) == start + all_library_warnings(all.take(i as int)),
        decreases v@.len() - i,
    {
        proof {
            assert(all.take(i + 1).drop_last() =~= all.take(i as int));
            assert(all.take(i + 1).last() == v@[i as int]@);
        }
        warn_of_library(&v[i], warnings);
        i += 1;
        assert(strings(warnings@) =~= start + all_library_warnings(all.take(i as int)));
    }
    assert(all.take(i as int) =~= all);
}

fn find_material(v: &Vec<Library>, name: &str) -> (r: Option<(usize, usize)>)
    ensures
        match r {
            Some((k, j)) => material_at(library_files(v@), name@) == Some((k as int, j as int)) && k
                < v@.len() && j < v@[k as int].file.materials@.len(),
            None => material_at(library_files(v@), name@) is None,
        },
{
    let ghost all = library_files(v@);
    let mut k: usize = 0;
    assert(all.skip(0) =~= all);
    while k < v.len()
        invariant
            k <= v@.len(),
            all == library_files(v@),
            match material_at(all.skip(k as int), name@) {
                Some((a, b)) => material_at(all, name@) == Some((a + k, b)),
                None => material_at(all, name@) is None,
            },
        decreases v@.len() - k,
    {
        let ghost rest = all.skip(k as int);
        assert(rest[0] == v@[k as int]@);
        let j: usize = v[k].file.find(name);
        if v[k].error.is_none() && j < v[k].file.materials.len() {
            return Some((k, j));
        }
        proof {
            lemma_name_index(rest[0].names, name@);
            assert(rest.skip(1) =~= all.skip(k + 1));
        }
        k += 1;
    }
    None
}

fn add_one(
    tables: &mut SceneTables,
    name: &str,
    libs: &Vec<Library>,
    images: &Vec<Image>,
    warnings: &mut Vec<String>,
    Ghost(d): Ghost<Dressing>,
) -> (r: (Option<usize>, u32))
    requires
        in_step(old(tables)@),
        complete_libraries(libs@),
        d.tables == old(tables)@,
        d.warnings == strings(old(warnings)@),
    ensures
        in_step(final(tables)@),
        dress_one(d, name@, library_files(libs@), image_models(images@)) == (Dressing {
            tables: final(tables)@,
            masks: d.masks.push(opt_number(r.0)),
            opacities: d.opacities.push(r.1),
            warnings: strings(final(warnings)@),
        }),
{
    match find_material(libs, name) {
        Some((k, j)) => {
            let l: &Library = &libs[k];
            assert(l.numbers@.len() == l.file.materials@.len());
            assert(library_files(libs@)[k as int] == l@);
            assert(l@.materials[j as int] == l.file.materials@[j as int]@);
            let p = mtl_to_material(
                &l.file.materials[j],
                l.numbers[j],
                l.dir.as_str(),
                images,
                &mut tables.registry,
                &mut tables.library,
                warnings,
            );
            tables.push_material(p.material, p.map);
            (p.mask, p.opacity)
        },
        None => {
            let c = chars_of(name);
            if c.len() > 0 && libs.len() > 0 {
                warn3(warnings, "material '", name, "' not found in mtl; defaulting to diffuse");
            }
            tables.push_material(fallback_material(), None);
            (None, SINGLE_ONE)
        },
    }
}

/// Adds the materials of a mesh, and returns the mask of each and how opaque it leaves it at most.
pub fn add_materials(
    tables: &mut SceneTables,
    names: &Vec<String>,
    libs: &Vec<Library>,
    images: &Vec<Image>,
    warnings: &mut Vec<String>,
) -> (r: (Vec<Option<usize>>, Vec<u32>))
    requires
        in_step(old(tables)@),
        complete_libraries(libs@),
    ensures
        in_step(final(tables)@),
        dress(
            old(tables)@,
            strings(old(warnings)@),
            strings(names@),
            library_files(libs@),
            image_models(images@),
        ) == (Dressing {
            tables: final(tables)@,
            masks: opt_numbers(r.0@),
            opacities: r.1@,
            warnings: strings(final(warnings)@),
        }),
{
    let ghost t0 = tables@;
    let ghost w0 = strings(warnings@);
    let ghost all = strings(names@);
    let ghost files = library_files(libs@);
    let ghost seen = image_models(images@);
    let mut masks: Vec<Option<usize>> = Vec::new();
    let mut opacities: Vec<u32> = Vec::new();
    assert(opt_numbers(masks@) =~= Seq::<Option<int>>::empty());
    assert(all.take(0) =~= Seq::<Seq<char>>::empty());
    let mut i: usize = 0;
    while i < names.len()
        invariant
            i <= names@.len(),
            in_step(tables@),
            complete_libraries(libs@),
            all == strings(names@),
            files == library_files(libs@),
            seen == image_models(images@),
            dress(t0, w0, all.take(i as int), files, seen) == (Dressing {
                tables: tables@,
                masks: opt_numbers(masks@),
                opacities: opacities@,
                warnings: strings(warnings@),
            }),
        decreases names@.len() - i,
    {
        let ghost d = dress(t0, w0, all.take(i as int), files, seen);
        proof {
            assert(all.take(i + 1).drop_last() =~= all.take(i as int));
            assert(all.take(i + 1).last() == names@[i as int]@);
        }
        let ghost before = masks@;
        let m: (Option<usize>, u32) = add_one(
            tables,
            names[i].as_str(),
            libs,
            images,
            warnings,
            Ghost(d),
        );
        masks.push(m.0);
        opacities.push(m.1);
        assert(opt_numbers(masks@) =~= opt_numbers(before).push(opt_number(m.0)));
        i += 1;
    }
    assert(all.take(i as int) =~= all);
    (masks, opacities)
}

proof fn lemma_dress(
    t: TablesModel,
    w: Seq<Seq<char>>,
    names: Seq<Seq<char>>,
    l: Seq<LibraryFile>,
    images: Seq<ImageModel>,
)
    ensures
        dress(t, w, names, l, images).masks.len() == names.len(),
        dress(t, w, names, l, images).opacities.len() == names.len(),
        dress(t, w, names, l, images).tables.mats.len() == t.mats.len() + names.len(),
        dress(t, w, names, l, images).tables.mats.take(t.mats.len() as int) == t.mats,
        dress(t, w, names, l, images).tables.meshes == t.meshes,
        dress(t, w, names, l, images).tables.objs == t.objs,
        in_step(t) ==> in_step(dress(t, w, names, l, images).tables),
    decreases names.len(),
{
    let d = dress(t, w, names, l, images);
    if names.len() > 0 {
        let b = dress(t, w, names.drop_last(), l, images);
        lemma_dress(t, w, names.drop_last(), l, images);
        assert(d.tables.mats.take(t.mats.len() as int) =~= b.tables.mats.take(t.mats.len() as int));
    } else {
        assert(d.tables.mats.take(t.mats.len() as int) =~= t.mats);
    }
}

/// A mesh gets exactly one material for each name that its triangles use, behind those that were
/// there before; every material keeps its entry among the maps, and no mesh changes.
pub proof fn one_material_for_each_name(
    t: TablesModel,
    w: Seq<Seq<char>>,
    names: Seq<Seq<char>>,
    l: Seq<LibraryFile>,
    images: Seq<ImageModel>,
)
    requires
        in_step(t),
    ensures
        ({
            let d = dress(t, w, names, l, images);
            &&& d.tables.mats.len() == t.mats.len() + names.len()
            &&& d.tables.mats.take(t.mats.len() as int) == t.mats
            &&& d.masks.len() == names.len()
            &&& d.opacities.len() == names.len()
            &&& d.tables.meshes == t.meshes
            &&& d.tables.objs == t.objs
            &&& in_step(d.tables)
        }),
{
    lemma_dress(t, w, names, l, images);
}

} // verus!
