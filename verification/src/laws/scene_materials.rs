//! Materials and textures: what each `<bsdf>`, `<texture>` and `<emitter>` of a surface is read as.

use super::scene_elements::{
    carries, choices_are_read, colourless, colours_are_read, first, gives, kind_for, named, none_of,
    numbers_are_read, paints, properties_are_read, says, silent, tagged, the_first_child_counts,
    types_are_attributes,
};
use crate::mitsuba::lights::Text3;
use crate::mitsuba::materials::{
    bitmap_of, bsdf_of, emitter_of, environment_error, image_error, image_index, image_key, map_of,
    texture_of, ImageModel, MapModel, MapUseModel, MaterialModel, RegistryModel, RoughnessModel,
    TextureModel,
};
use crate::mitsuba::props::{child_index, ColorModel, NameRule};
use crate::mitsuba::scene::path_in;
use crate::mitsuba::xml::Node;
use crate::texture::{wrap_named, Wrap};
use vstd::prelude::*;

verus! {

/// A linear grey.
pub open spec fn even(v: Seq<char>) -> ColorModel {
    ColorModel { srgb: false, v: (v, v, v) }
}

/// The names of the materials are different.
proof fn lemma_kinds()
    ensures
        "diffuse"@ != "conductor"@ && "diffuse"@ != "roughconductor"@ && "diffuse"@ != "dielectric"@
            && "diffuse"@ != "thindielectric"@ && "diffuse"@ != "roughdielectric"@ && "diffuse"@
            != "twosided"@ && "diffuse"@ != "normalmap"@ && "diffuse"@ != "bumpmap"@,
        "conductor"@ != "roughconductor"@ && "conductor"@ != "dielectric"@ && "conductor"@
            != "thindielectric"@ && "conductor"@ != "roughdielectric"@ && "conductor"@
            != "twosided"@ && "conductor"@ != "normalmap"@ && "conductor"@ != "bumpmap"@,
        "roughconductor"@ != "dielectric"@ && "roughconductor"@ != "thindielectric"@
            && "roughconductor"@ != "roughdielectric"@ && "roughconductor"@ != "twosided"@
            && "roughconductor"@ != "normalmap"@ && "roughconductor"@ != "bumpmap"@,
        "dielectric"@ != "twosided"@ && "dielectric"@ != "normalmap"@ && "dielectric"@ != "bumpmap"@,
        "thindielectric"@ != "twosided"@ && "thindielectric"@ != "normalmap"@ && "thindielectric"@
            != "bumpmap"@,
        "roughdielectric"@ != "twosided"@ && "roughdielectric"@ != "normalmap"@
            && "roughdielectric"@ != "bumpmap"@,
        "twosided"@ != "normalmap"@ && "twosided"@ != "bumpmap"@ && "normalmap"@ != "bumpmap"@,
{
    reveal_strlit("diffuse");
    reveal_strlit("conductor");
    reveal_strlit("roughconductor");
    reveal_strlit("dielectric");
    reveal_strlit("thindielectric");
    reveal_strlit("roughdielectric");
    reveal_strlit("twosided");
    reveal_strlit("normalmap");
    reveal_strlit("bumpmap");
    assert("diffuse"@.len() == 7 && "conductor"@.len() == 9 && "roughconductor"@.len() == 14);
    assert("dielectric"@.len() == 10 && "thindielectric"@.len() == 14 && "roughdielectric"@.len() == 15);
    assert("twosided"@.len() == 8 && "normalmap"@.len() == 9 && "bumpmap"@.len() == 7);
    assert("diffuse"@[0] == 'd' && "bumpmap"@[0] == 'b');
    assert("conductor"@[0] == 'c' && "normalmap"@[0] == 'n');
    assert("roughconductor"@[0] == 'r' && "thindielectric"@[0] == 't');
}

/// A diffuse surface has the reflectance that is written, and half of the light without one.
pub proof fn diffuse_surfaces_reflect(
    n: Node,
    srgb: bool,
    v: Text3,
    base: Seq<char>,
    images: Seq<ImageModel>,
    reg: RegistryModel,
)
    requires
        carries(n, "type"@, "diffuse"@),
        silent(n, "texture"@, "reflectance"@),
    ensures
        paints(n, "reflectance"@, srgb, v) ==> bsdf_of(n, base, images, reg).value == (
            MaterialModel::Lambert { albedo: ColorModel { srgb, v }, texture: None },
            None::<int>,
        ),
        colourless(n, "reflectance"@) ==> bsdf_of(n, base, images, reg).value == (
            MaterialModel::Lambert { albedo: even("0.5"@), texture: None },
            None::<int>,
        ),
        bsdf_of(n, base, images, reg).registry == reg,
{
    lemma_kinds();
    types_are_attributes(n, "diffuse"@);
    colours_are_read(n, "reflectance", srgb, v, "0.5"@);
    the_first_child_counts(n, "texture"@, NameRule::Is("reflectance"), n);
}

/// A diffuse surface with a texture that could be read shows that texture, in full if no reflectance
/// is written beside it; without the picture it is as if there were no texture.
pub proof fn diffuse_surfaces_may_be_textured(
    n: Node,
    c: Node,
    srgb: bool,
    v: Text3,
    base: Seq<char>,
    images: Seq<ImageModel>,
    reg: RegistryModel,
)
    requires
        carries(n, "type"@, "diffuse"@),
        first(n.children, named("texture"@, "reflectance"@), c),
    ensures
        ({
            let o = bsdf_of(n, base, images, reg);
            let t = texture_of(c, base, images, reg);
            &&& o.registry == t.registry
            &&& paints(n, "reflectance"@, srgb, v) ==> o.value == (
                MaterialModel::Lambert { albedo: ColorModel { srgb, v }, texture: t.value },
                None::<int>,
            )
            &&& colourless(n, "reflectance"@) && t.value is Some ==> o.value == (
                MaterialModel::Lambert { albedo: even("1"@), texture: t.value },
                None::<int>,
            )
            &&& colourless(n, "reflectance"@) && t.value is None ==> o.value == (
                MaterialModel::Lambert { albedo: even("0.5"@), texture: None },
                None::<int>,
            )
        }),
{
    lemma_kinds();
    types_are_attributes(n, "diffuse"@);
    colours_are_read(n, "reflectance", srgb, v, "0.5"@);
    the_first_child_counts(n, "texture"@, NameRule::Is("reflectance"), c);
}

/// A metal has the reflectance that is written, and reflects all light without one.
pub proof fn metals_reflect(
    n: Node,
    srgb: bool,
    v: Text3,
    base: Seq<char>,
    images: Seq<ImageModel>,
    reg: RegistryModel,
)
    requires
        carries(n, "type"@, "conductor"@),
    ensures
        paints(n, "specular_reflectance"@, srgb, v) ==> bsdf_of(n, base, images, reg).value == (
            MaterialModel::Metal { albedo: ColorModel { srgb, v } },
            None::<int>,
        ),
        colourless(n, "specular_reflectance"@) ==> bsdf_of(n, base, images, reg).value == (
            MaterialModel::Metal { albedo: even("1"@) },
            None::<int>,
        ),
        bsdf_of(n, base, images, reg).registry == reg,
{
    lemma_kinds();
    types_are_attributes(n, "conductor"@);
    colours_are_read(n, "specular_reflectance", srgb, v, "1"@);
}

/// A rough metal has the reflectance and the roughness that are written; without them it reflects
/// all light and has the roughness of a tenth.
pub proof fn rough_metals_reflect(
    n: Node,
    srgb: bool,
    v: Text3,
    a: Seq<char>,
    base: Seq<char>,
    images: Seq<ImageModel>,
    reg: RegistryModel,
)
    requires
        carries(n, "type"@, "roughconductor"@),
    ensures
        ({
            let m = bsdf_of(n, base, images, reg).value.0;
            &&& m is Ggx
            &&& paints(n, "specular_reflectance"@, srgb, v) ==> m->Ggx_albedo == (ColorModel {
                srgb,
                v,
            })
            &&& colourless(n, "specular_reflectance"@) ==> m->Ggx_albedo == even("1"@)
            &&& gives(n, "alpha"@, a) ==> m->roughness == RoughnessModel::Alpha(a)
            &&& silent(n, "float"@, "alpha"@) ==> m->roughness == RoughnessModel::Alpha("0.1"@)
        }),
        bsdf_of(n, base, images, reg).value.1 is None,
        bsdf_of(n, base, images, reg).registry == reg,
{
    lemma_kinds();
    types_are_attributes(n, "roughconductor"@);
    colours_are_read(n, "specular_reflectance", srgb, v, "1"@);
    numbers_are_read(n, "alpha", a);
}

/// Glass has the two refractive indices and the absorption that are written, each for itself;
/// without them it is glass in air that absorbs nothing.
pub proof fn glass_refracts(
    n: Node,
    inside: Seq<char>,
    outside: Seq<char>,
    srgb: bool,
    v: Text3,
    base: Seq<char>,
    images: Seq<ImageModel>,
    reg: RegistryModel,
)
    requires
        carries(n, "type"@, "dielectric"@) || carries(n, "type"@, "thindielectric"@) || carries(
            n,
            "type"@,
            "roughdielectric"@,
        ),
    ensures
        ({
            let m = bsdf_of(n, base, images, reg).value.0;
            &&& m is Dielectric
            &&& gives(n, "int_ior"@, inside) ==> m->int_ior == inside
            &&& silent(n, "float"@, "int_ior"@) ==> m->int_ior == "1.5"@
            &&& gives(n, "ext_ior"@, outside) ==> m->ext_ior == outside
            &&& silent(n, "float"@, "ext_ior"@) ==> m->ext_ior == "1"@
            &&& paints(n, "absorption"@, srgb, v) ==> m->absorption == (ColorModel { srgb, v })
            &&& colourless(n, "absorption"@) ==> m->absorption == even("0"@)
        }),
        bsdf_of(n, base, images, reg).value.1 is None,
        bsdf_of(n, base, images, reg).registry == reg,
{
    lemma_kinds();
    types_are_attributes(n, "dielectric"@);
    types_are_attributes(n, "thindielectric"@);
    types_are_attributes(n, "roughdielectric"@);
    colours_are_read(n, "absorption", srgb, v, "0"@);
    numbers_are_read(n, "int_ior", inside);
    numbers_are_read(n, "ext_ior", outside);
}

/// A light has the radiance that is written, and one without it.
pub proof fn lights_shine_as_written(n: Node, srgb: bool, v: Text3)
    ensures
        paints(n, "radiance"@, srgb, v) ==> emitter_of(n) == (MaterialModel::DiffuseLight {
            emit: ColorModel { srgb, v },
        }),
        colourless(n, "radiance"@) ==> emitter_of(n) == (MaterialModel::DiffuseLight {
            emit: even("1"@),
        }),
{
    colours_are_read(n, "radiance", srgb, v, "1"@);
}

proof fn lemma_inner(n: Node, b: Node)
    ensures
        first(n.children, tagged("bsdf"@), b) ==> ({
            let i = child_index(n.children, "bsdf"@, NameRule::Any);
            0 <= i < n.children.len() && n.children[i] == b
        }),
{
    the_first_child_counts(n, "bsdf"@, NameRule::Any, b);
    lemma_index_sign(n.children);
}

proof fn lemma_index_sign(s: Seq<Node>)
    ensures
        child_index(s, "bsdf"@, NameRule::Any) >= 0,
    decreases s.len(),
{
    if s.len() > 0 {
        lemma_index_sign(s.skip(1));
    }
}

/// Two sides of a surface are those of the first material inside.
pub proof fn two_sides_are_one_material(
    n: Node,
    b: Node,
    base: Seq<char>,
    images: Seq<ImageModel>,
    reg: RegistryModel,
)
    requires
        carries(n, "type"@, "twosided"@),
        first(n.children, tagged("bsdf"@), b),
    ensures
        bsdf_of(n, base, images, reg) == bsdf_of(b, base, images, reg),
{
    lemma_kinds();
    types_are_attributes(n, "twosided"@);
    lemma_inner(n, b);
}

/// A surface with a map of normals or heights has the material inside, and the map if the picture
/// could be read; otherwise the map of the material inside stays.
pub proof fn maps_bend_the_material_inside(
    n: Node,
    b: Node,
    normals: bool,
    base: Seq<char>,
    images: Seq<ImageModel>,
    reg: RegistryModel,
)
    requires
        normals ==> carries(n, "type"@, "normalmap"@),
        !normals ==> carries(n, "type"@, "bumpmap"@),
        first(n.children, tagged("bsdf"@), b),
    ensures
        ({
            let o = bsdf_of(n, base, images, reg);
            let inner = bsdf_of(b, base, images, reg);
            let map = map_of(n, normals, base, images, inner.registry);
            &&& o.value.0 == inner.value.0
            &&& map.value is Some ==> o.value.1 == map.value
            &&& map.value is None ==> o.value.1 == inner.value.1
            &&& o.registry == map.registry
        }),
{
    lemma_kinds();
    types_are_attributes(n, "normalmap"@);
    types_are_attributes(n, "bumpmap"@);
    lemma_inner(n, b);
}

/// The way a picture goes on beyond its edges.
pub proof fn wrapping_is_named()
    ensures
        wrap_named("repeat"@) == Some(Wrap::Repeat),
        wrap_named("clamp"@) == Some(Wrap::Clamp),
        forall|w: Seq<char>|
            w != "repeat"@ && w != "clamp"@ ==> (#[trigger] wrap_named(w)) is None,
{
    reveal_strlit("repeat");
    reveal_strlit("clamp");
    assert("repeat"@.len() == 6 && "clamp"@.len() == 5);
}

/// A picture is the file that is named, relative to the scene, and repeats unless it is said to
/// stop at its edges.
pub proof fn pictures_are_named_files(n: Node, file: Seq<char>, w: Seq<char>, base: Seq<char>)
    requires
        carries(n, "type"@, "bitmap"@),
    ensures
        says(n, "string"@, "filename"@, file) && silent(n, "string"@, "wrap_mode"@) ==> bitmap_of(
            n,
            base,
        ) == Some((path_in(base, file), Wrap::Repeat)),
        says(n, "string"@, "filename"@, file) && says(n, "string"@, "wrap_mode"@, "repeat"@)
            ==> bitmap_of(n, base) == Some((path_in(base, file), Wrap::Repeat)),
        says(n, "string"@, "filename"@, file) && says(n, "string"@, "wrap_mode"@, "clamp"@)
            ==> bitmap_of(n, base) == Some((path_in(base, file), Wrap::Clamp)),
        says(n, "string"@, "filename"@, file) && says(n, "string"@, "wrap_mode"@, w) && w
            != "repeat"@ && w != "clamp"@ ==> bitmap_of(n, base) == Some(
            (path_in(base, file), Wrap::Repeat),
        ),
        silent(n, "string"@, "filename"@) ==> bitmap_of(n, base) is None,
{
    types_are_attributes(n, "bitmap"@);
    wrapping_is_named();
    properties_are_read(n, "string"@, "filename", file);
    properties_are_read(n, "string"@, "wrap_mode", w);
    properties_are_read(n, "string"@, "wrap_mode", "repeat"@);
    properties_are_read(n, "string"@, "wrap_mode", "clamp"@);
}

/// A texture that could be read is added at the end of the textures, and named by its place. Its
/// colours are of the sRGB space unless they are said to be raw.
pub proof fn textures_are_numbered(
    n: Node,
    base: Seq<char>,
    images: Seq<ImageModel>,
    reg: RegistryModel,
    raw: Seq<char>,
)
    requires
        bitmap_of(n, base) is Some,
    ensures
        ({
            let (path, wrap) = bitmap_of(n, base)->Some_0;
            let o = texture_of(n, base, images, reg);
            let good = image_error(images, path) is None;
            let srgb = |s: bool|
                o.registry.textures == reg.textures.push(TextureModel { path, srgb: s, wrap });
            &&& good ==> o.value == Some(reg.textures.len() as int)
            &&& good && silent(n, "boolean"@, "raw"@) ==> srgb(true)
            &&& good && says(n, "boolean"@, "raw"@, seq!['t', 'r', 'u', 'e']) ==> srgb(false)
            &&& good && says(n, "boolean"@, "raw"@, seq!['f', 'a', 'l', 's', 'e']) ==> srgb(true)
            &&& !good ==> o.value is None && o.registry == reg
            &&& o.registry.normal_maps == reg.normal_maps
        }),
{
    super::text_rules::blanks_are_space();
    let (t, f) = (seq!['t', 'r', 'u', 'e'], seq!['f', 'a', 'l', 's', 'e']);
    super::text_rules::tight_text_is_left_alone(t);
    super::text_rules::tight_text_is_left_alone(f);
    choices_are_read(n, "raw", raw, false);
    choices_are_read(n, "raw", t, false);
    choices_are_read(n, "raw", f, false);
}

/// A map of normals holds directions, a map of heights has the scale that is written, one without
/// it; either is added at the end of the maps, and named by its place.
pub proof fn maps_are_numbered(
    n: Node,
    c: Node,
    s: Seq<char>,
    base: Seq<char>,
    images: Seq<ImageModel>,
    reg: RegistryModel,
)
    requires
        bitmap_of(c, base) is Some,
        image_error(images, bitmap_of(c, base)->Some_0.0) is None,
    ensures
        ({
            let (path, wrap) = bitmap_of(c, base)->Some_0;
            let tangent = map_of(n, true, base, images, reg);
            let height = map_of(n, false, base, images, reg);
            &&& first(n.children, named("texture"@, "normalmap"@), c) ==> tangent.value == Some(
                reg.normal_maps.len() as int,
            ) && tangent.registry.normal_maps == reg.normal_maps.push(
                MapModel { path, wrap, used: MapUseModel::Tangent },
            )
            &&& first(n.children, named("texture"@, "bumpmap"@), c) ==> height.value == Some(
                reg.normal_maps.len() as int,
            )
            &&& first(n.children, named("texture"@, "bumpmap"@), c) && gives(n, "scale"@, s)
                ==> height.registry.normal_maps == reg.normal_maps.push(
                MapModel { path, wrap, used: MapUseModel::Height(s) },
            )
            &&& first(n.children, named("texture"@, "bumpmap"@), c) && silent(
                n,
                "float"@,
                "scale"@,
            ) ==> height.registry.normal_maps == reg.normal_maps.push(
                MapModel { path, wrap, used: MapUseModel::Height("1"@) },
            )
            &&& tangent.registry.textures == reg.textures && height.registry.textures == reg.textures
        }),
{
    the_first_child_counts(n, "texture"@, NameRule::Is("normalmap"), c);
    the_first_child_counts(n, "texture"@, NameRule::Is("bumpmap"), c);
    numbers_are_read(n, "scale", s);
}

proof fn lemma_image_index(v: Seq<ImageModel>, path: Seq<char>, i: int)
    requires
        0 <= i <= v.len(),
        i < v.len() ==> v[i].path == path,
        forall|j: int| 0 <= j < i ==> (#[trigger] v[j]).path != path,
    ensures
        image_index(v, path) == i,
    decreases v.len(),
{
    if i > 0 {
        assert(v[0].path != path);
        let r = v.skip(1);
        assert forall|j: int| 0 <= j < i - 1 implies (#[trigger] r[j]).path != path by {
            assert(v[j + 1].path != path);
        }
        lemma_image_index(r, path, i - 1);
    }
}

/// What is known of a picture is what was found out of the file with its path.
pub proof fn pictures_are_found_by_path(v: Seq<ImageModel>, i: int)
    requires
        0 <= i < v.len(),
        forall|j: int| 0 <= j < i ==> (#[trigger] v[j]).path != v[i].path,
    ensures
        image_error(v, v[i].path) == v[i].error,
        environment_error(v, v[i].path) == v[i].environment_error,
        image_key(v, v[i].path) == v[i].key,
{
    lemma_image_index(v, v[i].path, i);
}

/// A picture that was not read cannot be used.
pub proof fn pictures_must_be_read(v: Seq<ImageModel>, path: Seq<char>)
    requires
        forall|j: int| 0 <= j < v.len() ==> (#[trigger] v[j]).path != path,
    ensures
        image_error(v, path) is Some,
        environment_error(v, path) is Some,
        image_key(v, path) == path,
{
    lemma_image_index(v, path, v.len() as int);
}

/// A map may be a texture without a name, where none has the name of the map.
pub proof fn maps_may_be_unnamed(
    n: Node,
    c: Node,
    base: Seq<char>,
    images: Seq<ImageModel>,
    reg: RegistryModel,
)
    requires
        first(n.children, kind_for("texture"@, NameRule::Missing), c),
        bitmap_of(c, base) is Some,
        image_error(images, bitmap_of(c, base)->Some_0.0) is None,
    ensures
        ({
            let (path, wrap) = bitmap_of(c, base)->Some_0;
            &&& silent(n, "texture"@, "normalmap"@) ==> map_of(
                n,
                true,
                base,
                images,
                reg,
            ).registry.normal_maps == reg.normal_maps.push(
                MapModel { path, wrap, used: MapUseModel::Tangent },
            )
            &&& silent(n, "texture"@, "bumpmap"@) && silent(n, "float"@, "scale"@) ==> map_of(
                n,
                false,
                base,
                images,
                reg,
            ).registry.normal_maps == reg.normal_maps.push(
                MapModel { path, wrap, used: MapUseModel::Height("1"@) },
            )
        }),
{
    the_first_child_counts(n, "texture"@, NameRule::Is("normalmap"), n);
    the_first_child_counts(n, "texture"@, NameRule::Is("bumpmap"), n);
    the_first_child_counts(n, "texture"@, NameRule::Missing, c);
    numbers_are_read(n, "scale", "1"@);
}

/// A material of an unknown kind is diffuse, and so is one that should hold another and does not.
pub proof fn unknown_materials_are_diffuse(
    n: Node,
    t: Seq<char>,
    srgb: bool,
    v: Text3,
    base: Seq<char>,
    images: Seq<ImageModel>,
    reg: RegistryModel,
)
    requires
        carries(n, "type"@, t),
    ensures
        ({
            let o = bsdf_of(n, base, images, reg);
            let known = t == "diffuse"@ || t == "conductor"@ || t == "roughconductor"@ || t
                == "dielectric"@ || t == "thindielectric"@ || t == "roughdielectric"@;
            let holds = t == "twosided"@ || t == "normalmap"@ || t == "bumpmap"@;
            &&& !known && !holds && paints(n, "reflectance"@, srgb, v) ==> o.value == (
                MaterialModel::Lambert { albedo: ColorModel { srgb, v }, texture: None },
                None::<int>,
            )
            &&& !known && !holds && colourless(n, "reflectance"@) ==> o.value == (
                MaterialModel::Lambert { albedo: even("0.5"@), texture: None },
                None::<int>,
            )
            &&& holds && none_of(n.children, tagged("bsdf"@)) ==> o.value.0 == (
            MaterialModel::Lambert { albedo: even("0.5"@), texture: None })
        }),
{
    lemma_kinds();
    types_are_attributes(n, t);
    colours_are_read(n, "reflectance", srgb, v, "0.5"@);
    if none_of(n.children, tagged("bsdf"@)) {
        the_first_child_counts(n, "bsdf"@, NameRule::Any, n);
        lemma_index_sign(n.children);
    }
}

} // verus!
