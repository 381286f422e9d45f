//! Materials from libraries: which of its lines make a material, and which material a triangle gets.

use super::scene_materials::even;
use crate::mitsuba::dressing::{dress, dress_one, material_at, Dressing, LibraryFile};
use crate::mitsuba::library::{
    cached, load, maps_of, material_of, EntryModel, LibraryModel, MtlNumbers,
};
use crate::mitsuba::materials::{
    image_error, image_key, ImageModel, MapModel, MapUseModel, MaterialModel, RegistryModel,
    RoughnessModel, TextureModel,
};
use crate::mitsuba::props::ColorModel;
use crate::mitsuba::scene::path_in;
use crate::mtl::MtlModel;
use crate::obj::{lemma_name_index, name_index};
use crate::reals::{at_most, below, single};
use crate::texture::Wrap;
use vstd::prelude::*;

verus! {

/// Whether nothing is remembered of a picture.
pub open spec fn forgotten(c: Seq<EntryModel>, path: Seq<char>) -> bool {
    forall|i: int| 0 <= i < c.len() ==> (#[trigger] c[i]).path != path
}

proof fn lemma_forgotten(c: Seq<EntryModel>, path: Seq<char>, height: bool, strength: u64)
    requires
        forgotten(c, path),
    ensures
        cached(c, path, height, strength) is None,
    decreases c.len(),
{
    if c.len() > 0 {
        assert(c[0].path != path);
        let r = c.skip(1);
        assert forall|i: int| 0 <= i < r.len() implies (#[trigger] r[i]).path != path by {
            assert(c[i + 1].path != path);
        }
        lemma_forgotten(r, path, height, strength);
    }
}

/// What is remembered is used again, without a new number; otherwise a picture that can be read gets
/// the next number, and one that cannot gets none. Either is remembered.
pub proof fn pictures_are_remembered(
    c: Seq<EntryModel>,
    path: Seq<char>,
    height: bool,
    strength: u64,
    error: Option<Seq<char>>,
    next: int,
    what: Seq<char>,
    i: int,
)
    ensures
        ({
            let l = load(c, path, height, strength, error, next, what);
            &&& forgotten(c, path) && error is None ==> l.value == Some(next) && l.fresh
                && l.warnings.len() == 0
            &&& forgotten(c, path) && error is Some ==> l.value is None && !l.fresh
                && l.warnings.len() == 1
            &&& 0 <= i < c.len() && c[i].path == path && c[i].height == height && c[i].strength
                == strength && (forall|j: int| 0 <= j < i ==> (#[trigger] c[j]).path != path)
                ==> l.value == c[i].value && !l.fresh && l.cache == c && l.warnings.len() == 0
        }),
{
    if forgotten(c, path) {
        lemma_forgotten(c, path, height, strength);
    }
    if 0 <= i < c.len() && c[i].path == path && c[i].height == height && c[i].strength == strength && (
    forall|j: int| 0 <= j < i ==> (#[trigger] c[j]).path != path) {
        lemma_remembered(c, path, height, strength, i);
    }
}

proof fn lemma_remembered(c: Seq<EntryModel>, path: Seq<char>, height: bool, strength: u64, i: int)
    requires
        0 <= i < c.len(),
        c[i].path == path && c[i].height == height && c[i].strength == strength,
        forall|j: int| 0 <= j < i ==> (#[trigger] c[j]).path != path,
    ensures
        cached(c, path, height, strength) == Some(c[i].value),
    decreases i,
{
    if i > 0 {
        assert(c[0].path != path);
        let r = c.skip(1);
        assert forall|j: int| 0 <= j < i - 1 implies (#[trigger] r[j]).path != path by {
            assert(c[j + 1].path != path);
        }
        lemma_remembered(r, path, height, strength, i - 1);
    }
}

/// Without a picture a material is a rough metal if it shines in highlights that are bright enough
/// and sharp enough, and else diffuse; each with the colour that was written for it.
pub proof fn shiny_materials_are_metals(
    m: MtlModel,
    k: MtlNumbers,
    dir: Seq<char>,
    images: Seq<ImageModel>,
    reg: RegistryModel,
    lib: LibraryModel,
)
    requires
        m.map_kd is None,
    ensures
        ({
            let o = material_of(m, k, dir, images, reg, lib);
            let shiny = below(0x3FA9_9999_9999_999A, k.specular) && below(0x3FF0_0000_0000_0000, k.ns);
            &&& shiny ==> o.material == (MaterialModel::Ggx {
                albedo: ColorModel { srgb: false, v: m.ks },
                roughness: RoughnessModel::Exponent(m.ns),
            })
            &&& !shiny ==> o.material == (MaterialModel::Lambert {
                albedo: ColorModel { srgb: false, v: m.kd },
                texture: None,
            })
            &&& o.registry.textures == reg.textures
        }),
{
}

/// With a picture a material is diffuse, whatever its highlights: the picture in its colours, times
/// the colour that was written; just the colour if the picture cannot be read.
pub proof fn pictures_make_materials_diffuse(
    m: MtlModel,
    k: MtlNumbers,
    dir: Seq<char>,
    images: Seq<ImageModel>,
    reg: RegistryModel,
    lib: LibraryModel,
)
    requires
        m.map_kd is Some,
        forgotten(lib.textures, image_key(images, path_in(dir, m.map_kd->Some_0))),
    ensures
        ({
            let o = material_of(m, k, dir, images, reg, lib);
            let path = path_in(dir, m.map_kd->Some_0);
            let good = image_error(images, path) is None;
            &&& good ==> o.material == (MaterialModel::Lambert {
                albedo: ColorModel { srgb: false, v: m.kd },
                texture: Some(reg.textures.len() as int),
            }) && o.registry.textures == reg.textures.push(
                TextureModel { path: image_key(images, path), srgb: true, wrap: Wrap::Repeat },
            )
            &&& !good ==> o.material == (MaterialModel::Lambert {
                albedo: ColorModel { srgb: false, v: m.kd },
                texture: None,
            }) && o.registry.textures == reg.textures
        }),
{
    lemma_forgotten(
        lib.textures,
        image_key(images, path_in(dir, m.map_kd->Some_0)),
        false,
        0x3FF0_0000_0000_0000,
    );
}

/// A map of normals is used before a map of heights, even if it cannot be read; a map of heights has
/// the strength that was written with it.
pub proof fn normals_come_before_heights(
    m: MtlModel,
    k: MtlNumbers,
    dir: Seq<char>,
    images: Seq<ImageModel>,
    reg: RegistryModel,
    lib: LibraryModel,
    p: Seq<char>,
)
    requires
        forgotten(lib.maps, image_key(images, path_in(dir, p))),
    ensures
        ({
            let o = material_of(m, k, dir, images, reg, lib);
            let path = path_in(dir, p);
            let good = image_error(images, path) is None;
            let added = |u: MapUseModel|
                o.map == Some(reg.normal_maps.len() as int) && o.registry.normal_maps
                    == reg.normal_maps.push(
                    MapModel { path: image_key(images, path), wrap: Wrap::Repeat, used: u },
                );
            &&& m.norm == Some(p) && good ==> added(MapUseModel::Tangent)
            &&& m.norm is None && m.map_bump == Some(p) && good ==> added(
                MapUseModel::LibraryHeight(m.bm),
            )
            &&& (m.norm == Some(p) || (m.norm is None && m.map_bump == Some(p))) && !good
                ==> o.map is None && o.registry.normal_maps == reg.normal_maps
            &&& m.norm is None && m.map_bump is None ==> o.map is None && o.registry.normal_maps
                == reg.normal_maps
        }),
{
    lemma_forgotten(lib.maps, image_key(images, path_in(dir, p)), false, 0x3FF0_0000_0000_0000);
    lemma_forgotten(lib.maps, image_key(images, path_in(dir, p)), true, k.strength);
}

/// Holes come from the picture that was written for them, and only with one does opacity count; it
/// counts between zero and one.
pub proof fn holes_come_from_masks(
    m: MtlModel,
    k: MtlNumbers,
    dir: Seq<char>,
    images: Seq<ImageModel>,
    reg: RegistryModel,
    lib: LibraryModel,
)
    ensures
        ({
            let o = material_of(m, k, dir, images, reg, lib);
            let one = 0x3FF0_0000_0000_0000u64;
            &&& m.map_d is None ==> o.mask is None && o.opacity == 0x3F80_0000 && o.library.mask_files
                == lib.mask_files
            &&& m.map_d matches Some(p) ==> {
                let path = path_in(dir, p);
                forgotten(lib.masks, image_key(images, path)) ==> {
                    &&& image_error(images, path) is None ==> o.mask == Some(
                        lib.mask_files.len() as int,
                    ) && o.library.mask_files == lib.mask_files.push(image_key(images, path))
                    &&& image_error(images, path) is Some ==> o.mask is None && o.library.mask_files
                        == lib.mask_files
                }
            }
            &&& o.mask is None ==> o.opacity == 0x3F80_0000
            &&& o.mask is Some && at_most(0, k.d) && at_most(k.d, one) ==> o.opacity == single(k.d)
            &&& o.mask is Some && below(k.d, 0) ==> o.opacity == single(0)
            &&& o.mask is Some && below(one, k.d) ==> o.opacity == single(one)
        }),
{
    if let Some(p) = m.map_d {
        let path = path_in(dir, p);
        if forgotten(lib.masks, image_key(images, path)) {
            lemma_forgotten(lib.masks, image_key(images, path), false, 0x3FF0_0000_0000_0000);
        }
    }
}

/// Whether a library could be read and has a material of this name.
pub open spec fn offers(l: LibraryFile, name: Seq<char>) -> bool {
    l.error is None && l.names.contains(name)
}

/// A name means the first material of that name in the first library that could be read and has it.
pub proof fn names_mean_the_first_material(l: Seq<LibraryFile>, name: Seq<char>)
    ensures
        material_at(l, name) is None <==> (forall|k: int|
            0 <= k < l.len() ==> !offers(#[trigger] l[k], name)),
        material_at(l, name) matches Some((k, j)) ==> {
            &&& 0 <= k < l.len() && 0 <= j < l[k].names.len()
            &&& l[k].error is None && l[k].names[j] == name
            &&& forall|i: int| 0 <= i < j ==> #[trigger] l[k].names[i] != name
            &&& forall|i: int| 0 <= i < k ==> !offers(#[trigger] l[i], name)
        },
    decreases l.len(),
{
    if l.len() > 0 {
        let r = l.skip(1);
        names_mean_the_first_material(r, name);
        lemma_name_index(l[0].names, name);
        lemma_first(l[0].names, name);
        let i = name_index(l[0].names, name);
        if l[0].error is None && i < l[0].names.len() {
            assert(l[0].names.contains(l[0].names[i]));
            assert(offers(l[0], name));
        } else {
            assert(!offers(l[0], name));
            if material_at(l, name) is None {
                assert forall|k: int| 0 <= k < l.len() implies !offers(#[trigger] l[k], name) by {
                    if k > 0 {
                        assert(!offers(r[k - 1], name));
                    }
                }
            } else {
                let (k, j) = material_at(l, name)->Some_0;
                assert(r[k - 1] == l[k]);
                assert forall|i: int| 0 <= i < k implies !offers(#[trigger] l[i], name) by {
                    if i > 0 {
                        assert(!offers(r[i - 1], name));
                    }
                }
                assert(offers(l[k], name));
            }
        }
    }
}

proof fn lemma_first(names: Seq<Seq<char>>, name: Seq<char>)
    ensures
        0 <= name_index(names, name) <= names.len(),
        name_index(names, name) < names.len() <==> names.contains(name),
        name_index(names, name) < names.len() ==> names[name_index(names, name)] == name,
        forall|i: int| 0 <= i < name_index(names, name) ==> #[trigger] names[i] != name,
    decreases names.len(),
{
    if names.len() > 0 && names[0] != name {
        let r = names.skip(1);
        lemma_first(r, name);
        assert forall|i: int| 0 <= i < name_index(names, name) implies #[trigger] names[i] != name by {
            if i > 0 {
                assert(r[i - 1] != name);
            }
        }
        if names.contains(name) {
            let i = choose|i: int| 0 <= i < names.len() && names[i] == name;
            assert(r[i - 1] == name);
        }
        if r.contains(name) {
            let i = choose|i: int| 0 <= i < r.len() && r[i] == name;
            assert(names[i + 1] == name);
        }
    } else if names.len() > 0 {
        assert(names.contains(names[0]));
    }
}

/// A name that a library has gets that material, its map, its mask and its opacity; a name that none
/// has gets a grey one without any.
pub proof fn names_get_their_material(
    d: Dressing,
    name: Seq<char>,
    l: Seq<LibraryFile>,
    images: Seq<ImageModel>,
)
    ensures
        ({
            let r = dress_one(d, name, l, images);
            &&& material_at(l, name) matches Some((k, j)) ==> {
                let o = material_of(
                    l[k].materials[j],
                    l[k].numbers[j],
                    l[k].dir,
                    images,
                    d.tables.registry,
                    d.tables.library,
                );
                &&& r.tables.mats == d.tables.mats.push(o.material)
                &&& r.tables.mat_maps == d.tables.mat_maps.push(o.map)
                &&& r.tables.registry == o.registry && r.tables.library == o.library
                &&& r.masks == d.masks.push(o.mask)
                &&& r.opacities == d.opacities.push(o.opacity)
                &&& r.warnings == d.warnings + o.warnings
            }
            &&& material_at(l, name) is None ==> {
                &&& r.tables.mats == d.tables.mats.push(
                    MaterialModel::Lambert { albedo: even("0.5"@), texture: None },
                )
                &&& r.tables.mat_maps == d.tables.mat_maps.push(None)
                &&& r.masks == d.masks.push(None)
                &&& r.opacities == d.opacities.push(0x3F80_0000)
            }
            &&& r.tables.meshes == d.tables.meshes && r.tables.objs == d.tables.objs
        }),
{
}

/// Names get their materials one after the other, in their order.
pub proof fn names_are_dressed_in_order(
    t: crate::mitsuba::tables::TablesModel,
    w: Seq<Seq<char>>,
    names: Seq<Seq<char>>,
    name: Seq<char>,
    l: Seq<LibraryFile>,
    images: Seq<ImageModel>,
)
    ensures
        dress(t, w, names.push(name), l, images) == dress_one(
            dress(t, w, names, l, images),
            name,
            l,
            images,
        ),
        dress(t, w, Seq::empty(), l, images) == (Dressing {
            tables: t,
            masks: Seq::empty(),
            opacities: Seq::empty(),
            warnings: w,
        }),
{
    assert(names.push(name).drop_last() =~= names);
}

/// A material needs the pictures that its lines name, relative to its library.
pub proof fn materials_need_their_pictures(m: MtlModel, dir: Seq<char>, p: Seq<char>)
    ensures
        m.map_kd == Some(p) || m.map_d == Some(p) || m.map_bump == Some(p) || m.norm == Some(p)
            ==> maps_of(m, dir).contains(path_in(dir, p)),
        m.map_kd is None && m.map_d is None && m.map_bump is None && m.norm is None ==> maps_of(
            m,
            dir,
        ).len() == 0,
{
    let a = crate::mitsuba::library::map_path_in(dir, m.map_kd);
    let b = crate::mitsuba::library::map_path_in(dir, m.map_d);
    let c = crate::mitsuba::library::map_path_in(dir, m.map_bump);
    let d = crate::mitsuba::library::map_path_in(dir, m.norm);
    let s = maps_of(m, dir);
    assert(s =~= a + b + c + d);
    if m.map_kd == Some(p) {
        assert(s[0] == path_in(dir, p));
    }
    if m.map_d == Some(p) {
        assert(s[a.len() as int] == path_in(dir, p));
    }
    if m.map_bump == Some(p) {
        assert(s[(a + b).len() as int] == path_in(dir, p));
    }
    if m.norm == Some(p) {
        assert(s[(a + b + c).len() as int] == path_in(dir, p));
    }
}

} // verus!
