//! Whatever a scene refers to exists: images, masks, materials and meshes.

use super::assemble::{after_step, after_steps, finished, PlanModel, Progress, Surroundings};
use super::dressing::{
    all_library_warnings, distinct_masks, dress, dress_one, mask_slots, material_at,
    one_material_for_each_name, slots_lead_to_masks, LibraryFile,
};
use super::lights::Text3;
use super::library::{
    bending_of, cached, load, map_at, mask_of, material_of, unsupported_in, EntryModel,
    LibraryModel, MtlNumbers, Reading,
};
use super::materials::{
    materials_use_known_images, registry_grows, ImageModel, MapUseModel, MaterialModel, RegistryModel,
};
use super::props::{boolean_of, boolean_warnings, child, prop_value, typ, NameRule};
use super::scene::{all_steps, path_in, steps_for, StepModel};
use super::shapes::{
    end_file, given_material, library_choice_warnings, meshes_known, misplaced_warnings,
    placements_are_known, shape_light, shape_of, uses_library, FilesModel, PlacedModel,
};
use super::tables::{in_step, mesh_for, MeshModel, TablesModel};
use super::xml::Node;
use crate::mtl::MtlModel;
use vstd::prelude::*;

verus! {

/// Whether a number, if there is one, is below `n`.
pub open spec fn known(i: Option<int>, n: nat) -> bool {
    i matches Some(k) ==> 0 <= k < n
}

/// Whether the texture of a material exists.
pub open spec fn material_known(m: MaterialModel, textures: nat) -> bool {
    m matches MaterialModel::Lambert { texture, .. } ==> known(texture, textures)
}

/// Whether everything that is remembered exists.
pub open spec fn entries_known(c: Seq<EntryModel>, n: nat) -> bool {
    forall|i: int| 0 <= i < c.len() ==> known((#[trigger] c[i]).value, n)
}

pub open spec fn library_known(reg: RegistryModel, lib: LibraryModel) -> bool {
    &&& entries_known(lib.textures, reg.textures.len())
    &&& entries_known(lib.maps, reg.normal_maps.len())
    &&& entries_known(lib.masks, lib.mask_files.len())
}

/// Whether the materials and the masks of a mesh exist, its slots lead to its masks, and each of
/// its materials has a slot and an opacity.
pub open spec fn mesh_known(m: MeshModel, masks: nat, mats: nat) -> bool {
    match m {
        MeshModel::Rectangle(i) | MeshModel::Cube(i) | MeshModel::Disk(i) => 0 <= i < mats,
        MeshModel::Obj { material, .. } => 0 <= material < mats,
        MeshModel::Dressed { base, masks: used, slots, opacities, .. } => {
            &&& 0 <= base
            &&& base + slots.len() <= mats
            &&& slots.len() == opacities.len()
            &&& forall|i: int| 0 <= i < used.len() ==> 0 <= #[trigger] used[i] < masks
            &&& forall|i: int| 0 <= i < slots.len() ==> 0 <= #[trigger] slots[i] <= used.len()
        },
    }
}

/// Whether everything that the tables of a scene refer to exists.
pub open spec fn sound(t: TablesModel) -> bool {
    &&& in_step(t)
    &&& meshes_known(t)
    &&& library_known(t.registry, t.library)
    &&& forall|i: int|
        0 <= i < t.mats.len() ==> material_known(#[trigger] t.mats[i], t.registry.textures.len())
    &&& forall|i: int|
        0 <= i < t.mat_maps.len() ==> known(#[trigger] t.mat_maps[i], t.registry.normal_maps.len())
    &&& forall|i: int|
        0 <= i < t.meshes.len() ==> mesh_known(
            #[trigger] t.meshes[i],
            t.library.mask_files.len(),
            t.mats.len(),
        )
}

/// Whether what a shape adds refers to what exists.
pub open spec fn placement_known(p: PlacedModel, t: TablesModel) -> bool {
    match p {
        PlacedModel::Nothing => true,
        PlacedModel::Sphere { material, .. } => 0 <= material < t.mats.len(),
        PlacedModel::Instance { mesh, instead, .. } => 0 <= mesh < t.meshes.len() && known(
            instead,
            t.mats.len(),
        ),
    }
}

proof fn lemma_cached_known(
    c: Seq<EntryModel>,
    n: nat,
    path: Seq<char>,
    height: bool,
    strength: u64,
)
    requires
        entries_known(c, n),
    ensures
        cached(c, path, height, strength) matches Some(v) ==> known(v, n),
    decreases c.len(),
{
    if c.len() > 0 {
        assert(known(c[0].value, n));
        assert forall|i: int| 0 <= i < c.skip(1).len() implies known(
            (#[trigger] c.skip(1)[i]).value,
            n,
        ) by {
            assert(c.skip(1)[i] == c[i + 1]);
        }
        lemma_cached_known(c.skip(1), n, path, height, strength);
    }
}

proof fn lemma_load_known(
    c: Seq<EntryModel>,
    n: nat,
    path: Seq<char>,
    height: bool,
    strength: u64,
    error: Option<Seq<char>>,
    what: Seq<char>,
)
    requires
        entries_known(c, n),
    ensures
        ({
            let l = load(c, path, height, strength, error, n as int, what);
            let m: nat = if l.fresh {
                n + 1
            } else {
                n
            };
            known(l.value, m) && entries_known(l.cache, m)
        }),
{
    lemma_cached_known(c, n, path, height, strength);
    let l = load(c, path, height, strength, error, n as int, what);
    assert forall|i: int| 0 <= i < l.cache.len() implies known(
        (#[trigger] l.cache[i]).value,
        if l.fresh {
            n + 1
        } else {
            n
        },
    ) by {
        if i < c.len() {
            assert(l.cache[i] == c[i]);
            assert(known(c[i].value, n));
        }
    }
}

/// Whether the images in use, and the masks, are those that were in use before and maybe more.
pub open spec fn more(a: RegistryModel, b: RegistryModel, la: LibraryModel, lb: LibraryModel) -> bool {
    &&& a.textures.len() <= b.textures.len()
    &&& a.normal_maps.len() <= b.normal_maps.len()
    &&& la.mask_files.len() <= lb.mask_files.len()
}

proof fn lemma_mask_known(
    m: MtlModel,
    k: MtlNumbers,
    dir: Seq<char>,
    images: Seq<ImageModel>,
    r: Reading,
)
    requires
        library_known(r.registry, r.library),
    ensures
        ({
            let (v, s) = mask_of(m, k, dir, images, r);
            &&& known(v, s.library.mask_files.len())
            &&& library_known(s.registry, s.library)
            &&& more(r.registry, s.registry, r.library, s.library)
        }),
{
    match m.map_d {
        Some(p) => {
            let path = path_in(dir, p);
            lemma_load_known(
                r.library.masks,
                r.library.mask_files.len(),
                super::materials::image_key(images, path),
                false,
                crate::reals::ONE,
                super::materials::image_error(images, path),
                "failed to load alpha mask '"@,
            );
        },
        None => {},
    }
}

proof fn lemma_map_known(
    rel: Seq<char>,
    height: bool,
    strength: u64,
    used: MapUseModel,
    dir: Seq<char>,
    images: Seq<ImageModel>,
    r: Reading,
)
    requires
        library_known(r.registry, r.library),
    ensures
        ({
            let (v, s) = map_at(rel, height, strength, used, dir, images, r);
            &&& known(v, s.registry.normal_maps.len())
            &&& library_known(s.registry, s.library)
            &&& more(r.registry, s.registry, r.library, s.library)
        }),
{
    let path = path_in(dir, rel);
    lemma_load_known(
        r.library.maps,
        r.registry.normal_maps.len(),
        super::materials::image_key(images, path),
        height,
        strength,
        super::materials::image_error(images, path),
        "failed to load normal/bump map '"@,
    );
}

proof fn lemma_material_known(
    m: MtlModel,
    k: MtlNumbers,
    dir: Seq<char>,
    images: Seq<ImageModel>,
    reg: RegistryModel,
    lib: LibraryModel,
)
    requires
        library_known(reg, lib),
    ensures
        ({
            let o = material_of(m, k, dir, images, reg, lib);
            &&& material_known(o.material, o.registry.textures.len())
            &&& known(o.mask, o.library.mask_files.len())
            &&& known(o.map, o.registry.normal_maps.len())
            &&& library_known(o.registry, o.library)
            &&& more(reg, o.registry, lib, o.library)
        }),
{
    let r0 = Reading { registry: reg, library: lib, warnings: unsupported_in(m, k) };
    lemma_mask_known(m, k, dir, images, r0);
    let r1 = mask_of(m, k, dir, images, r0).1;
    let s = if m.norm is Some && m.map_bump is Some {
        Reading {
            warnings: r1.warnings.push(
                "mtl material '"@ + m.name + "': both norm and map_bump given; using norm"@,
            ),
            ..r1
        }
    } else {
        r1
    };
    match (m.norm, m.map_bump) {
        (Some(p), _) => lemma_map_known(
            p,
            false,
            crate::reals::ONE,
            MapUseModel::Tangent,
            dir,
            images,
            s,
        ),
        (None, Some(p)) => lemma_map_known(
            p,
            true,
            k.strength,
            MapUseModel::LibraryHeight(m.bm),
            dir,
            images,
            s,
        ),
        (None, None) => {},
    }
    let r2 = bending_of(m, k, dir, images, r1).1;
    match m.map_kd {
        Some(p) => {
            let path = path_in(dir, p);
            lemma_load_known(
                r2.library.textures,
                r2.registry.textures.len(),
                super::materials::image_key(images, path),
                false,
                crate::reals::ONE,
                super::materials::image_error(images, path),
                "failed to load texture '"@,
            );
        },
        None => {},
    }
}

/// Tables stay sound when images are added and a material that exists is put behind the others.
proof fn lemma_with_material(
    t: TablesModel,
    reg: RegistryModel,
    lib: LibraryModel,
    mat: MaterialModel,
    map: Option<int>,
)
    requires
        sound(t),
        library_known(reg, lib),
        more(t.registry, reg, t.library, lib),
        material_known(mat, reg.textures.len()),
        known(map, reg.normal_maps.len()),
    ensures
        sound(
            super::tables::with_material(
                TablesModel { registry: reg, library: lib, ..t },
                mat,
                map,
            ),
        ),
{
    let u = super::tables::with_material(
        TablesModel { registry: reg, library: lib, ..t },
        mat,
        map,
    );
    lemma_more_images(t, reg, lib);
    assert forall|i: int| 0 <= i < u.mats.len() implies material_known(
        #[trigger] u.mats[i],
        reg.textures.len(),
    ) by {
        if i < t.mats.len() {
            assert(u.mats[i] == t.mats[i]);
        }
    }
    assert forall|i: int| 0 <= i < u.mat_maps.len() implies known(
        #[trigger] u.mat_maps[i],
        reg.normal_maps.len(),
    ) by {
        if i < t.mat_maps.len() {
            assert(u.mat_maps[i] == t.mat_maps[i]);
        }
    }
    assert forall|i: int| 0 <= i < u.meshes.len() implies mesh_known(
        #[trigger] u.meshes[i],
        lib.mask_files.len(),
        u.mats.len(),
    ) by {
        assert(mesh_known(t.meshes[i], t.library.mask_files.len(), t.mats.len()));
    }
}

proof fn lemma_more_images(t: TablesModel, reg: RegistryModel, lib: LibraryModel)
    requires
        sound(t),
        library_known(reg, lib),
        more(t.registry, reg, t.library, lib),
    ensures
        sound(TablesModel { registry: reg, library: lib, ..t }),
{
    let u = TablesModel { registry: reg, library: lib, ..t };
    assert forall|i: int| 0 <= i < u.mats.len() implies material_known(
        #[trigger] u.mats[i],
        reg.textures.len(),
    ) by {
        assert(material_known(t.mats[i], t.registry.textures.len()));
    }
    assert forall|i: int| 0 <= i < u.mat_maps.len() implies known(
        #[trigger] u.mat_maps[i],
        reg.normal_maps.len(),
    ) by {
        assert(known(t.mat_maps[i], t.registry.normal_maps.len()));
    }
    assert forall|i: int| 0 <= i < u.meshes.len() implies mesh_known(
        #[trigger] u.meshes[i],
        lib.mask_files.len(),
        u.mats.len(),
    ) by {
        assert(mesh_known(t.meshes[i], t.library.mask_files.len(), t.mats.len()));
    }
}

pub open spec fn masks_known(m: Seq<Option<int>>, n: nat) -> bool {
    forall|i: int| 0 <= i < m.len() ==> known(#[trigger] m[i], n)
}

proof fn lemma_dress_known(
    t: TablesModel,
    w: Seq<Seq<char>>,
    names: Seq<Seq<char>>,
    l: Seq<LibraryFile>,
    images: Seq<ImageModel>,
)
    requires
        sound(t),
    ensures
        ({
            let d = dress(t, w, names, l, images);
            &&& sound(d.tables)
            &&& masks_known(d.masks, d.tables.library.mask_files.len())
        }),
    decreases names.len(),
{
    if names.len() > 0 {
        let b = dress(t, w, names.drop_last(), l, images);
        lemma_dress_known(t, w, names.drop_last(), l, images);
        let d = dress_one(b, names.last(), l, images);
        match material_at(l, names.last()) {
            Some((k, j)) => {
                let o = material_of(
                    l[k].materials[j],
                    l[k].numbers[j],
                    l[k].dir,
                    images,
                    b.tables.registry,
                    b.tables.library,
                );
                lemma_material_known(
                    l[k].materials[j],
                    l[k].numbers[j],
                    l[k].dir,
                    images,
                    b.tables.registry,
                    b.tables.library,
                );
                lemma_with_material(b.tables, o.registry, o.library, o.material, o.map);
            },
            None => {
                lemma_with_material(
                    b.tables,
                    b.tables.registry,
                    b.tables.library,
                    super::materials::default_material(),
                    None,
                );
            },
        }
        assert forall|i: int| 0 <= i < d.masks.len() implies known(
            #[trigger] d.masks[i],
            d.tables.library.mask_files.len(),
        ) by {
            if i < b.masks.len() {
                assert(known(b.masks[i], b.tables.library.mask_files.len()));
            }
        }
    }
}

proof fn lemma_distinct_known(m: Seq<Option<int>>, n: nat)
    requires
        masks_known(m, n),
    ensures
        forall|i: int| 0 <= i < distinct_masks(m).len() ==> 0 <= #[trigger] distinct_masks(m)[i] < n,
    decreases m.len(),
{
    if m.len() > 0 {
        let d = m.drop_last();
        assert forall|i: int| 0 <= i < d.len() implies known(#[trigger] d[i], n) by {
            assert(known(m[i], n));
        }
        lemma_distinct_known(d, n);
        assert(known(m[m.len() - 1], n));
        assert forall|i: int| 0 <= i < distinct_masks(m).len() implies 0 <= #[trigger] distinct_masks(
            m,
        )[i] < n by {
            if i < distinct_masks(d).len() {
                assert(distinct_masks(m)[i] == distinct_masks(d)[i]);
            }
        }
    }
}

proof fn lemma_with_mesh(t: TablesModel, m: MeshModel)
    requires
        sound(t),
        mesh_known(m, t.library.mask_files.len(), t.mats.len()),
    ensures
        sound(super::tables::with_mesh(t, m)),
{
    let u = super::tables::with_mesh(t, m);
    assert forall|i: int| 0 <= i < u.objs.len() implies 0 <= (#[trigger] u.objs[i]).mesh
        < u.meshes.len() by {
        assert(0 <= t.objs[i].mesh < t.meshes.len());
    }
    assert forall|i: int| 0 <= i < u.meshes.len() implies mesh_known(
        #[trigger] u.meshes[i],
        u.library.mask_files.len(),
        u.mats.len(),
    ) by {
        if i < t.meshes.len() {
            assert(u.meshes[i] == t.meshes[i]);
        }
    }
}

/// A shape leaves the tables sound: whatever they refer to exists, the maps and images of its own
/// material among it.
pub proof fn shapes_stay_sound(
    n: Node,
    len: spec_fn(Text3) -> u64,
    base: Seq<char>,
    f: FilesModel,
    images: Seq<ImageModel>,
    t: TablesModel,
    w: Seq<Seq<char>>,
)
    requires
        sound(t),
    ensures
        sound(shape_of(n, len, base, f, images, t, w).tables),
{
    placements_are_known(n, len, base, f, images, t, w);
    let o = shape_of(n, len, base, f, images, t, w);
    let w0 = w + misplaced_warnings(n) + library_choice_warnings(n);
    if uses_library(n) {
        match (prop_value(n, "string"@, "filename"), f.error) {
            (Some(file), None) => {
                let path = path_in(base, file);
                let w1 = w0 + boolean_warnings(n, "face_normals", false) + all_library_warnings(
                    f.libraries,
                );
                let w2 = if f.libraries.len() == 0 {
                    w1.push(
                        "obj '"@ + path
                            + "' has no mtllib and the shape has no bsdf; defaulting to diffuse"@,
                    )
                } else {
                    w1
                };
                let d = dress(t, w2, f.mat_names, f.libraries, images);
                lemma_dress_known(t, w2, f.mat_names, f.libraries, images);
                one_material_for_each_name(t, w2, f.mat_names, f.libraries, images);
                lemma_distinct_known(d.masks, d.tables.library.mask_files.len());
                let m = MeshModel::Dressed {
                    path,
                    flat: boolean_of(n, "face_normals", false),
                    base: t.mats.len() as int,
                    masks: distinct_masks(d.masks),
                    slots: mask_slots(d.masks),
                    opacities: d.opacities,
                };
                if d.masks.len() > 0 {
                    slots_lead_to_masks(d.masks, 0);
                }
                assert forall|i: int| 0 <= i < mask_slots(d.masks).len() implies 0
                    <= #[trigger] mask_slots(d.masks)[i] <= distinct_masks(d.masks).len() by {
                    if d.masks.len() > 0 {
                        slots_lead_to_masks(d.masks, i);
                    }
                }
                lemma_with_mesh(d.tables, m);
            },
            _ => {},
        }
    } else {
        let g = given_material(n, base, images, t.registry);
        match shape_light(n) {
            Some(e) => {},
            None => match child(n, "bsdf"@, NameRule::Any) {
                Some(b) => materials_use_known_images(b, base, images, t.registry),
                None => {},
            },
        }
        assert(more(t.registry, g.registry, t.library, t.library));
        assert(library_known(g.registry, t.library)) by {
            assert forall|i: int| 0 <= i < t.library.textures.len() implies known(
                (#[trigger] t.library.textures[i]).value,
                g.registry.textures.len(),
            ) by {
                assert(known(t.library.textures[i].value, t.registry.textures.len()));
            }
            assert forall|i: int| 0 <= i < t.library.maps.len() implies known(
                (#[trigger] t.library.maps[i]).value,
                g.registry.normal_maps.len(),
            ) by {
                assert(known(t.library.maps[i].value, t.registry.normal_maps.len()));
            }
        }
        lemma_more_images(t, g.registry, t.library);
        lemma_with_material(t, g.registry, t.library, g.value.0, g.value.1);
        let t1 = TablesModel { registry: g.registry, ..t };
        let t2 = super::tables::with_material(t1, g.value.0, g.value.1);
        assert(t1 == TablesModel { registry: g.registry, library: t.library, ..t });
        assert(sound(t2));
        if o.tables.meshes.len() > t.meshes.len() {
            lemma_with_mesh(t2, o.tables.meshes.last());
        }
    }
}

/// Whether the materials, maps, images and meshes of `a` are still the first ones of `b`.
pub open spec fn only_adds(a: TablesModel, b: TablesModel) -> bool {
    &&& a.mats.is_prefix_of(b.mats)
    &&& a.mat_maps.is_prefix_of(b.mat_maps)
    &&& registry_grows(a.registry, b.registry)
    &&& a.meshes.is_prefix_of(b.meshes)
}

proof fn lemma_grows_on(a: RegistryModel, b: RegistryModel, c: RegistryModel)
    requires
        registry_grows(a, b),
        registry_grows(b, c),
    ensures
        registry_grows(a, c),
{
    assert(c.textures.take(a.textures.len() as int) =~= b.textures.take(a.textures.len() as int));
    assert(c.normal_maps.take(a.normal_maps.len() as int) =~= b.normal_maps.take(
        a.normal_maps.len() as int,
    ));
}

proof fn lemma_library_material_grows(
    m: MtlModel,
    k: MtlNumbers,
    dir: Seq<char>,
    images: Seq<ImageModel>,
    reg: RegistryModel,
    lib: LibraryModel,
)
    ensures
        registry_grows(reg, material_of(m, k, dir, images, reg, lib).registry),
{
    let r0 = Reading { registry: reg, library: lib, warnings: unsupported_in(m, k) };
    let r1 = mask_of(m, k, dir, images, r0).1;
    let r2 = bending_of(m, k, dir, images, r1).1;
    let o = material_of(m, k, dir, images, reg, lib);
    assert(r1.registry == reg);
    assert(r2.registry.textures == reg.textures);
    assert(r2.registry.normal_maps.take(reg.normal_maps.len() as int) =~= reg.normal_maps);
    assert(o.registry.normal_maps == r2.registry.normal_maps);
    assert(o.registry.textures.take(reg.textures.len() as int) =~= reg.textures);
}

proof fn lemma_dress_only_adds(
    t: TablesModel,
    w: Seq<Seq<char>>,
    names: Seq<Seq<char>>,
    l: Seq<LibraryFile>,
    images: Seq<ImageModel>,
)
    ensures
        only_adds(t, dress(t, w, names, l, images).tables),
    decreases names.len(),
{
    if names.len() == 0 {
        assert(t.registry.textures.take(t.registry.textures.len() as int) =~= t.registry.textures);
        assert(t.registry.normal_maps.take(t.registry.normal_maps.len() as int)
            =~= t.registry.normal_maps);
    } else {
        lemma_dress_only_adds(t, w, names.drop_last(), l, images);
        let b = dress(t, w, names.drop_last(), l, images).tables;
        let d = dress(t, w, names, l, images).tables;
        match material_at(l, names.last()) {
            Some((k, j)) => {
                lemma_library_material_grows(
                    l[k].materials[j],
                    l[k].numbers[j],
                    l[k].dir,
                    images,
                    b.registry,
                    b.library,
                );
                lemma_grows_on(t.registry, b.registry, d.registry);
            },
            None => {},
        }
    }
}

/// Whether nothing comes of a shape: it is of a kind that there is not, or a mesh out of a file
/// that it does not name or that cannot be read. A mesh that an earlier shape has read is there.
pub open spec fn comes_to_nothing(
    n: Node,
    base: Seq<char>,
    f: FilesModel,
    t: TablesModel,
) -> bool {
    let end = end_file(n, base);
    let end_key = if end is Some {
        Some(f.end_key)
    } else {
        None
    };
    let kept = mesh_for(t.objs, f.key, end_key, boolean_of(n, "face_normals", false)) is Some;
    let moves = end is Some && f.motion_error is None;
    if typ(n) == "obj"@ {
        prop_value(n, "string"@, "filename") is None || (f.error is Some && (uses_library(n) || !(
        kept || moves)))
    } else {
        typ(n) != "sphere"@ && typ(n) != "rectangle"@ && typ(n) != "cube"@ && typ(n) != "disk"@
    }
}

/// A shape only adds to the tables: whatever was there before stays where it was. Where nothing
/// comes of it, it adds nothing to the scene, and materials, maps and meshes are as before.
#[verifier::spinoff_prover]
#[verifier::rlimit(40)]
pub proof fn shapes_only_add(
    n: Node,
    len: spec_fn(Text3) -> u64,
    base: Seq<char>,
    f: FilesModel,
    images: Seq<ImageModel>,
    t: TablesModel,
    w: Seq<Seq<char>>,
)
    ensures
        ({
            let o = shape_of(n, len, base, f, images, t, w);
            &&& only_adds(t, o.tables)
            &&& in_step(t) ==> in_step(o.tables)
            &&& o.placed is Nothing <==> comes_to_nothing(n, base, f, t)
            &&& o.placed is Nothing ==> o.tables.mats == t.mats && o.tables.mat_maps == t.mat_maps
                && o.tables.meshes == t.meshes
        }),
{
    reveal_strlit("obj");
    reveal_strlit("sphere");
    reveal_strlit("rectangle");
    reveal_strlit("cube");
    reveal_strlit("disk");
    assert("obj"@.len() == 3 && "sphere"@.len() == 6 && "rectangle"@.len() == 9 && "cube"@.len() == 4
        && "disk"@.len() == 4);
    assert(t.registry.textures.take(t.registry.textures.len() as int) =~= t.registry.textures);
    assert(t.registry.normal_maps.take(t.registry.normal_maps.len() as int)
        =~= t.registry.normal_maps);
    if uses_library(n) {
        let w1 = w + misplaced_warnings(n) + library_choice_warnings(n) + boolean_warnings(
            n,
            "face_normals",
            false,
        ) + all_library_warnings(f.libraries);
        let path = path_in(base, prop_value(n, "string"@, "filename")->Some_0);
        let w2 = if f.libraries.len() == 0 {
            w1.push(
                "obj '"@ + path
                    + "' has no mtllib and the shape has no bsdf; defaulting to diffuse"@,
            )
        } else {
            w1
        };
        lemma_dress_only_adds(t, w2, f.mat_names, f.libraries, images);
        if in_step(t) {
            one_material_for_each_name(t, w2, f.mat_names, f.libraries, images);
        }
    } else {
        let g = given_material(n, base, images, t.registry);
        assert(registry_grows(t.registry, g.registry)) by {
            if shape_light(n) is None {
                match child(n, "bsdf"@, NameRule::Any) {
                    Some(b) => materials_use_known_images(b, base, images, t.registry),
                    None => {},
                }
            }
        }
        let o = shape_of(n, len, base, f, images, t, w);
        assert(o.tables.registry == g.registry);
        assert(o.tables.mats == t.mats || o.tables.mats == t.mats.push(g.value.0));
        assert(o.tables.mat_maps == t.mat_maps || o.tables.mat_maps == t.mat_maps.push(g.value.1));
    }
}

/// Whether the textures and maps of the materials that `b` has and `a` has not exist.
pub open spec fn additions_known(a: TablesModel, b: TablesModel) -> bool {
    &&& forall|i: int|
        a.mats.len() <= i < b.mats.len() ==> material_known(
            #[trigger] b.mats[i],
            b.registry.textures.len(),
        )
    &&& forall|i: int|
        a.mat_maps.len() <= i < b.mat_maps.len() ==> known(
            #[trigger] b.mat_maps[i],
            b.registry.normal_maps.len(),
        )
}

proof fn lemma_dress_adds_known(
    t: TablesModel,
    w: Seq<Seq<char>>,
    names: Seq<Seq<char>>,
    l: Seq<LibraryFile>,
    images: Seq<ImageModel>,
)
    requires
        library_known(t.registry, t.library),
    ensures
        ({
            let d = dress(t, w, names, l, images).tables;
            &&& library_known(d.registry, d.library)
            &&& additions_known(t, d)
        }),
    decreases names.len(),
{
    if names.len() > 0 {
        let b = dress(t, w, names.drop_last(), l, images).tables;
        let d = dress(t, w, names, l, images).tables;
        lemma_dress_adds_known(t, w, names.drop_last(), l, images);
        if let Some((k, j)) = material_at(l, names.last()) {
            lemma_material_known(
                l[k].materials[j],
                l[k].numbers[j],
                l[k].dir,
                images,
                b.registry,
                b.library,
            );
        }
        assert forall|i: int| t.mats.len() <= i < d.mats.len() implies material_known(
            #[trigger] d.mats[i],
            d.registry.textures.len(),
        ) by {
            if i < b.mats.len() {
                assert(material_known(b.mats[i], b.registry.textures.len()));
            }
        }
        assert forall|i: int| t.mat_maps.len() <= i < d.mat_maps.len() implies known(
            #[trigger] d.mat_maps[i],
            d.registry.normal_maps.len(),
        ) by {
            if i < b.mat_maps.len() {
                assert(known(b.mat_maps[i], b.registry.normal_maps.len()));
            }
        }
    }
}

/// Whatever the materials that a shape adds refer to exists, if that holds of the images that are
/// remembered; and it then holds of those that are remembered afterwards.
pub proof fn shapes_add_what_exists(
    n: Node,
    len: spec_fn(Text3) -> u64,
    base: Seq<char>,
    f: FilesModel,
    images: Seq<ImageModel>,
    t: TablesModel,
    w: Seq<Seq<char>>,
)
    requires
        library_known(t.registry, t.library),
    ensures
        ({
            let o = shape_of(n, len, base, f, images, t, w).tables;
            &&& library_known(o.registry, o.library)
            &&& additions_known(t, o)
        }),
{
    let o = shape_of(n, len, base, f, images, t, w).tables;
    if uses_library(n) {
        let w1 = w + misplaced_warnings(n) + library_choice_warnings(n) + boolean_warnings(
            n,
            "face_normals",
            false,
        ) + all_library_warnings(f.libraries);
        let path = path_in(base, prop_value(n, "string"@, "filename")->Some_0);
        let w2 = if f.libraries.len() == 0 {
            w1.push(
                "obj '"@ + path
                    + "' has no mtllib and the shape has no bsdf; defaulting to diffuse"@,
            )
        } else {
            w1
        };
        lemma_dress_adds_known(t, w2, f.mat_names, f.libraries, images);
    } else {
        let g = given_material(n, base, images, t.registry);
        if shape_light(n) is None {
            match child(n, "bsdf"@, NameRule::Any) {
                Some(b) => materials_use_known_images(b, base, images, t.registry),
                None => {},
            }
        }
        assert(o.registry == g.registry);
        assert(o.library == t.library);
        assert forall|i: int| 0 <= i < t.library.textures.len() implies known(
            (#[trigger] t.library.textures[i]).value,
            g.registry.textures.len(),
        ) by {
            assert(known(t.library.textures[i].value, t.registry.textures.len()));
        }
        assert forall|i: int| 0 <= i < t.library.maps.len() implies known(
            (#[trigger] t.library.maps[i]).value,
            g.registry.normal_maps.len(),
        ) by {
            assert(known(t.library.maps[i].value, t.registry.normal_maps.len()));
        }
        assert(o.mats == t.mats || o.mats == t.mats.push(g.value.0));
        assert(o.mat_maps == t.mat_maps || o.mat_maps == t.mat_maps.push(g.value.1));
    }
}

/// Whether everything that a scene refers to exists.
pub open spec fn plan_sound(p: PlanModel) -> bool {
    &&& sound(p.tables)
    &&& forall|i: int|
        0 <= i < p.placements.len() ==> placement_known(#[trigger] p.placements[i], p.tables)
}

proof fn lemma_step_sound(p: Progress, s: StepModel, c: Seq<Node>, x: Surroundings)
    requires
        plan_sound(p.plan),
    ensures
        plan_sound(after_step(p, s, c, x).plan),
{
    match s {
        StepModel::Shape(i) => {
            shapes_stay_sound(
                c[i],
                x.readings.length,
                x.base,
                x.files[i],
                x.images,
                p.plan.tables,
                p.warnings,
            );
            placements_are_known(
                c[i],
                x.readings.length,
                x.base,
                x.files[i],
                x.images,
                p.plan.tables,
                p.warnings,
            );
            let q = after_step(p, s, c, x).plan;
            assert forall|k: int| 0 <= k < q.placements.len() implies placement_known(
                #[trigger] q.placements[k],
                q.tables,
            ) by {
                if k < p.plan.placements.len() {
                    assert(placement_known(p.plan.placements[k], p.plan.tables));
                }
            }
        },
        _ => {},
    }
}

proof fn lemma_steps_sound(w: Seq<Seq<char>>, s: Seq<StepModel>, c: Seq<Node>, x: Surroundings)
    ensures
        plan_sound(after_steps(w, s, c, x).plan),
    decreases s.len(),
{
    if s.len() > 0 {
        lemma_steps_sound(w, s.drop_last(), c, x);
        lemma_step_sound(after_steps(w, s.drop_last(), c, x), s.last(), c, x);
    }
}

/// Whatever a scene holds and whatever its files are like, what it refers to exists: the textures
/// and maps of its materials, the materials and masks of its meshes, the meshes and materials of
/// its shapes.
/// The table of maps is empty or has an entry for every material.
pub proof fn scenes_are_sound(
    w: Seq<Seq<char>>,
    s: Seq<StepModel>,
    c: Seq<Node>,
    x: Surroundings,
)
    ensures
        ({
            let p = finished(after_steps(w, s, c, x).plan);
            let t = p.tables;
            &&& t.mat_maps.len() == 0 || t.mat_maps.len() == t.mats.len()
            &&& forall|i: int|
                0 <= i < t.mat_maps.len() ==> known(
                    #[trigger] t.mat_maps[i],
                    t.registry.normal_maps.len(),
                )
            &&& forall|i: int|
                0 <= i < t.mats.len() ==> material_known(
                    #[trigger] t.mats[i],
                    t.registry.textures.len(),
                )
            &&& forall|i: int|
                0 <= i < t.meshes.len() ==> mesh_known(
                    #[trigger] t.meshes[i],
                    t.library.mask_files.len(),
                    t.mats.len(),
                )
            &&& forall|i: int|
                0 <= i < p.placements.len() ==> placement_known(#[trigger] p.placements[i], t)
        }),
{
    lemma_steps_sound(w, s, c, x);
    let q = after_steps(w, s, c, x).plan;
    let p = finished(q);
    assert forall|i: int| 0 <= i < p.placements.len() implies placement_known(
        #[trigger] p.placements[i],
        p.tables,
    ) by {
        assert(placement_known(q.placements[i], q.tables));
    }
}

/// The steps of a scene speak of children that it has.
pub proof fn steps_speak_of_children(c: Seq<Node>)
    ensures
        super::assemble::steps_fit(all_steps(c), c.len() as int),
{
    lemma_steps_fit(c);
}

proof fn lemma_steps_fit(c: Seq<Node>)
    ensures
        super::assemble::steps_fit(steps_for(c), c.len() as int),
    decreases c.len(),
{
    if c.len() > 0 {
        lemma_steps_fit(c.drop_last());
    }
}

} // verus!
