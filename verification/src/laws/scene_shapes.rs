//! Shapes: what each kind of shape element adds to a scene.

use super::scene_elements::{
    carries, choices_are_read, coordinates_are_read, first, gives, none_of, numbers_are_read,
    places, properties_are_read, says, silent, tagged, the_first_child_counts,
    the_last_attribute_counts, types_are_attributes, unnamed_or,
};
use super::text_rules::tight;
use crate::mitsuba::dressing::{distinct_masks, dress, mask_slots};
use crate::mitsuba::lights::Text3;
use crate::mitsuba::materials::{bsdf_of, emitter_of, ImageModel, MaterialModel, RegistryModel};
use crate::mitsuba::props::{boolean_of, typ, ColorModel, NameRule};
use crate::mitsuba::scene::{is_delta, path_in};
use crate::mitsuba::shapes::{
    emitter_index, given_material, needed_files, shape_light, shape_of, to_world_end_of,
    to_world_of, FilesModel, PlacedModel,
};
use crate::mitsuba::tables::{mesh_for, MeshModel, ObjEntryModel, TablesModel};
use crate::mitsuba::transforms::{ops_of, OpModel};
use crate::mitsuba::xml::Node;
use crate::text::is_float;
use vstd::prelude::*;

verus! {

/// The names of the shapes are different.
proof fn lemma_types()
    ensures
        "sphere"@ != "rectangle"@ && "sphere"@ != "cube"@ && "sphere"@ != "disk"@ && "sphere"@
            != "obj"@,
        "rectangle"@ != "cube"@ && "rectangle"@ != "disk"@ && "rectangle"@ != "obj"@,
        "cube"@ != "disk"@ && "cube"@ != "obj"@ && "disk"@ != "obj"@,
{
    reveal_strlit("sphere");
    reveal_strlit("rectangle");
    reveal_strlit("cube");
    reveal_strlit("disk");
    reveal_strlit("obj");
    assert("sphere"@.len() == 6 && "rectangle"@.len() == 9 && "cube"@.len() == 4);
    assert("disk"@.len() == 4 && "obj"@.len() == 3);
    assert("cube"@[0] == 'c' && "disk"@[0] == 'd');
}

/// A sphere has the radius that its element gives, whatever else the element says.
pub proof fn spheres_have_their_radius(
    n: Node,
    v: Seq<char>,
    len: spec_fn(Text3) -> u64,
    base: Seq<char>,
    f: FilesModel,
    images: Seq<ImageModel>,
    t: TablesModel,
    w: Seq<Seq<char>>,
)
    requires
        carries(n, "type"@, "sphere"@),
        gives(n, "radius"@, v),
    ensures
        shape_of(n, len, base, f, images, t, w).placed is Sphere,
        shape_of(n, len, base, f, images, t, w).placed->radius == v,
{
    lemma_types();
    types_are_attributes(n, "sphere"@);
    numbers_are_read(n, "radius", v);
}

/// Two spheres with different radii are placed with different radii.
pub proof fn spheres_differ_as_written(
    n: Node,
    m: Node,
    v: Seq<char>,
    u: Seq<char>,
    len: spec_fn(Text3) -> u64,
    base: Seq<char>,
    f: FilesModel,
    images: Seq<ImageModel>,
    t: TablesModel,
    w: Seq<Seq<char>>,
)
    requires
        carries(n, "type"@, "sphere"@),
        carries(m, "type"@, "sphere"@),
        says(n, "float"@, "radius"@, v),
        says(m, "float"@, "radius"@, u),
        tight(v) && tight(u),
        is_float(v) && is_float(u),
        v != u,
    ensures
        shape_of(n, len, base, f, images, t, w).placed != shape_of(m, len, base, f, images, t, w).placed,
{
    numbers_are_read(n, "radius", v);
    numbers_are_read(m, "radius", u);
    spheres_have_their_radius(n, v, len, base, f, images, t, w);
    spheres_have_their_radius(m, u, len, base, f, images, t, w);
}

/// A sphere without a radius has the radius one; it is where its element says, and at the origin if
/// it does not say.
pub proof fn spheres_are_where_they_say(
    n: Node,
    c: Text3,
    len: spec_fn(Text3) -> u64,
    base: Seq<char>,
    f: FilesModel,
    images: Seq<ImageModel>,
    t: TablesModel,
    w: Seq<Seq<char>>,
)
    requires
        carries(n, "type"@, "sphere"@),
    ensures
        silent(n, "float"@, "radius"@) ==> shape_of(n, len, base, f, images, t, w).placed->radius
            == "1"@,
        places(n, "point"@, "center"@, c) ==> shape_of(
            n,
            len,
            base,
            f,
            images,
            t,
            w,
        ).placed->center == c,
        silent(n, "point"@, "center"@) ==> shape_of(n, len, base, f, images, t, w).placed->center
            == ("0"@, "0"@, "0"@),
{
    lemma_types();
    types_are_attributes(n, "sphere"@);
    numbers_are_read(n, "radius", "1"@);
    coordinates_are_read(n, "point"@, "center", c);
}

/// Whether an element is a light with a surface.
pub open spec fn area_light() -> spec_fn(Node) -> bool {
    |c: Node|
        c.tag == "emitter"@ && !carries(c, "type"@, "point"@) && !carries(
            c,
            "type"@,
            "directional"@,
        ) && !carries(c, "type"@, "spot"@)
}

proof fn lemma_area_light(c: Node)
    ensures
        (c.tag == "emitter"@ && !is_delta(typ(c))) == area_light()(c),
{
    the_last_attribute_counts(c, "type"@, "point"@);
    the_last_attribute_counts(c, "type"@, "directional"@);
    the_last_attribute_counts(c, "type"@, "spot"@);
    reveal_strlit("");
    reveal_strlit("point");
    reveal_strlit("directional");
    reveal_strlit("spot");
    assert(""@.len() == 0 && "point"@.len() == 5 && "directional"@.len() == 11 && "spot"@.len() == 4);
}

proof fn lemma_emitter_index(s: Seq<Node>, i: int)
    requires
        0 <= i <= s.len(),
        i < s.len() ==> area_light()(s[i]),
        forall|j: int| 0 <= j < i ==> !area_light()(#[trigger] s[j]),
    ensures
        emitter_index(s) == i,
    decreases s.len(),
{
    if s.len() > 0 {
        lemma_area_light(s[0]);
    }
    if i > 0 {
        assert(!area_light()(s[0]));
        let r = s.skip(1);
        assert forall|j: int| 0 <= j < i - 1 implies !area_light()(#[trigger] r[j]) by {
            assert(!area_light()(s[j + 1]));
        }
        lemma_emitter_index(r, i - 1);
    }
}

/// The light of a shape is its first emitter with a surface.
pub proof fn the_first_light_counts(n: Node, e: Node)
    ensures
        first(n.children, area_light(), e) ==> shape_light(n) == Some(e),
        none_of(n.children, area_light()) ==> shape_light(n) is None,
{
    let s = n.children;
    if first(s, area_light(), e) {
        let i = choose|i: int|
            0 <= i < s.len() && #[trigger] s[i] == e && area_light()(e) && (forall|j: int|
                0 <= j < i ==> !area_light()(#[trigger] s[j]));
        lemma_emitter_index(s, i);
    }
    if none_of(s, area_light()) {
        lemma_emitter_index(s, s.len() as int);
    }
}

/// A shape has the material of its light before that of its `<bsdf>`, and a grey one if it has
/// neither.
pub proof fn lights_come_before_materials(
    n: Node,
    e: Node,
    b: Node,
    base: Seq<char>,
    images: Seq<ImageModel>,
    reg: RegistryModel,
)
    ensures
        first(n.children, area_light(), e) ==> given_material(n, base, images, reg).value == (
            emitter_of(e),
            None::<int>,
        ) && given_material(n, base, images, reg).registry == reg,
        none_of(n.children, area_light()) && first(n.children, tagged("bsdf"@), b)
            ==> given_material(n, base, images, reg).value == bsdf_of(b, base, images, reg).value
            && given_material(n, base, images, reg).registry == bsdf_of(
            b,
            base,
            images,
            reg,
        ).registry,
        none_of(n.children, area_light()) && none_of(n.children, tagged("bsdf"@))
            ==> given_material(n, base, images, reg).value == (
            MaterialModel::Lambert {
                albedo: ColorModel { srgb: false, v: ("0.5"@, "0.5"@, "0.5"@) },
                texture: None,
            },
            None::<int>,
        ),
{
    the_first_light_counts(n, e);
    the_first_child_counts(n, "bsdf"@, NameRule::Any, b);
}

/// A shape of a kind that is built in adds one mesh of that kind and one material, and refers to
/// both; nothing that was there changes.
pub proof fn built_in_shapes_add_a_mesh(
    n: Node,
    len: spec_fn(Text3) -> u64,
    base: Seq<char>,
    f: FilesModel,
    images: Seq<ImageModel>,
    t: TablesModel,
    w: Seq<Seq<char>>,
)
    requires
        carries(n, "type"@, "rectangle"@) || carries(n, "type"@, "cube"@) || carries(
            n,
            "type"@,
            "disk"@,
        ),
    ensures
        ({
            let o = shape_of(n, len, base, f, images, t, w);
            let g = given_material(n, base, images, t.registry);
            let id = t.mats.len() as int;
            &&& o.placed == (PlacedModel::Instance {
                mesh: t.meshes.len() as int,
                instead: None,
                to_world: to_world_of(n, len),
                to_world_end: to_world_end_of(n, len),
            })
            &&& carries(n, "type"@, "rectangle"@) ==> o.tables.meshes == t.meshes.push(
                MeshModel::Rectangle(id),
            )
            &&& carries(n, "type"@, "cube"@) ==> o.tables.meshes == t.meshes.push(
                MeshModel::Cube(id),
            )
            &&& carries(n, "type"@, "disk"@) ==> o.tables.meshes == t.meshes.push(
                MeshModel::Disk(id),
            )
            &&& o.tables.mats == t.mats.push(g.value.0)
            &&& o.tables.mat_maps == t.mat_maps.push(g.value.1)
            &&& o.tables.objs == t.objs
        }),
{
    lemma_types();
    types_are_attributes(n, "rectangle"@);
    types_are_attributes(n, "cube"@);
    types_are_attributes(n, "disk"@);
}

/// A sphere adds one material and refers to it.
pub proof fn spheres_add_a_material(
    n: Node,
    len: spec_fn(Text3) -> u64,
    base: Seq<char>,
    f: FilesModel,
    images: Seq<ImageModel>,
    t: TablesModel,
    w: Seq<Seq<char>>,
)
    requires
        carries(n, "type"@, "sphere"@),
    ensures
        ({
            let o = shape_of(n, len, base, f, images, t, w);
            let g = given_material(n, base, images, t.registry);
            &&& o.placed->material == t.mats.len()
            &&& o.tables.mats == t.mats.push(g.value.0)
            &&& o.tables.mat_maps == t.mat_maps.push(g.value.1)
            &&& o.tables.meshes == t.meshes && o.tables.objs == t.objs
        }),
{
    lemma_types();
    types_are_attributes(n, "sphere"@);
}

/// A shape is moved by its first transformation that has no name or is named `to_world`, and it
/// moves to what `to_world_end` says unless it is a light.
pub proof fn shapes_are_moved_as_written(n: Node, a: Node, e: Node, len: spec_fn(Text3) -> u64)
    ensures
        first(n.children, unnamed_or("transform"@, "to_world"@), a) ==> to_world_of(n, len) == ops_of(
            a.children,
            len,
        ),
        none_of(n.children, unnamed_or("transform"@, "to_world"@)) ==> to_world_of(n, len) == Seq::<
            OpModel,
        >::empty(),
        first(n.children, super::scene_elements::named("transform"@, "to_world_end"@), e)
            && none_of(n.children, area_light()) ==> to_world_end_of(n, len) == Some(
            ops_of(e.children, len),
        ),
        silent(n, "transform"@, "to_world_end"@) ==> to_world_end_of(n, len) is None,
        first(n.children, area_light(), a) ==> to_world_end_of(n, len) is None,
{
    the_first_child_counts(n, "transform"@, NameRule::MissingOr("to_world"), a);
    the_first_child_counts(n, "transform"@, NameRule::Is("to_world_end"), e);
    the_first_light_counts(n, a);
}

/// Whether the meshes of a file are not known yet.
pub open spec fn unknown_mesh(t: TablesModel, key: Seq<char>) -> bool {
    forall|i: int| 0 <= i < t.objs.len() ==> (#[trigger] t.objs[i]).key != key
}

proof fn lemma_unknown(o: Seq<ObjEntryModel>, key: Seq<char>, end: Option<Seq<char>>, flat: bool)
    requires
        forall|i: int| 0 <= i < o.len() ==> (#[trigger] o[i]).key != key,
    ensures
        mesh_for(o, key, end, flat) is None,
    decreases o.len(),
{
    if o.len() > 0 {
        assert(o[0].key != key);
        let r = o.skip(1);
        assert forall|i: int| 0 <= i < r.len() implies (#[trigger] r[i]).key != key by {
            assert(o[i + 1].key != key);
        }
        lemma_unknown(r, key, end, flat);
    }
}

/// A mesh is found again by the file, the file at its end and the shading that it was added with.
pub proof fn meshes_are_found_again(o: Seq<ObjEntryModel>, e: ObjEntryModel)
    ensures
        unknown_mesh_in(o, e.key) ==> mesh_for(o.push(e), e.key, e.end, e.flat) == Some(e.mesh),
        forall|k: Seq<char>, d: Option<Seq<char>>, s: bool|
            (k, d, s) != (e.key, e.end, e.flat) ==> #[trigger] mesh_for(o.push(e), k, d, s) == mesh_for(
                o,
                k,
                d,
                s,
            ),
{
    if unknown_mesh_in(o, e.key) {
        lemma_found(o, e);
    }
    assert forall|k: Seq<char>, d: Option<Seq<char>>, s: bool|
        (k, d, s) != (e.key, e.end, e.flat) implies #[trigger] mesh_for(o.push(e), k, d, s) == mesh_for(
        o,
        k,
        d,
        s,
    ) by {
        lemma_others(o, e, k, d, s);
    }
}

/// Whether no mesh of a list is of this file.
pub open spec fn unknown_mesh_in(o: Seq<ObjEntryModel>, key: Seq<char>) -> bool {
    forall|i: int| 0 <= i < o.len() ==> (#[trigger] o[i]).key != key
}

proof fn lemma_found(o: Seq<ObjEntryModel>, e: ObjEntryModel)
    requires
        unknown_mesh_in(o, e.key),
    ensures
        mesh_for(o.push(e), e.key, e.end, e.flat) == Some(e.mesh),
    decreases o.len(),
{
    if o.len() > 0 {
        assert(o[0].key != e.key);
        let r = o.skip(1);
        assert forall|i: int| 0 <= i < r.len() implies (#[trigger] r[i]).key != e.key by {
            assert(o[i + 1].key != e.key);
        }
        lemma_found(r, e);
        assert(o.push(e).skip(1) =~= r.push(e));
    }
}

proof fn lemma_others(
    o: Seq<ObjEntryModel>,
    e: ObjEntryModel,
    k: Seq<char>,
    d: Option<Seq<char>>,
    s: bool,
)
    requires
        (k, d, s) != (e.key, e.end, e.flat),
    ensures
        mesh_for(o.push(e), k, d, s) == mesh_for(o, k, d, s),
    decreases o.len(),
{
    if o.len() > 0 {
        lemma_others(o.skip(1), e, k, d, s);
        assert(o.push(e).skip(1) =~= o.skip(1).push(e));
    } else {
        assert(o.push(e).skip(1) =~= o);
    }
}

/// A mesh from a file that is not known yet is added with the path of its file, the shading that
/// was asked for and its material; it is remembered by the file.
pub proof fn files_are_loaded_once(
    n: Node,
    file: Seq<char>,
    b: Node,
    len: spec_fn(Text3) -> u64,
    base: Seq<char>,
    f: FilesModel,
    images: Seq<ImageModel>,
    t: TablesModel,
    w: Seq<Seq<char>>,
)
    requires
        carries(n, "type"@, "obj"@),
        says(n, "string"@, "filename"@, file),
        silent(n, "string"@, "filename_end"@),
        first(n.children, tagged("bsdf"@), b),
    ensures
        ({
            let o = shape_of(n, len, base, f, images, t, w);
            let g = given_material(n, base, images, t.registry);
            let flat = boolean_of(n, "face_normals", false);
            let id = t.mats.len() as int;
            let known = mesh_for(t.objs, f.key, None, flat);
            &&& unknown_mesh(t, f.key) ==> known is None
            &&& known is None && f.error is None ==> o.placed == (PlacedModel::Instance {
                mesh: t.meshes.len() as int,
                instead: None,
                to_world: to_world_of(n, len),
                to_world_end: to_world_end_of(n, len),
            }) && o.tables.meshes == t.meshes.push(
                MeshModel::Obj { path: path_in(base, file), end: None, flat, material: id },
            ) && o.tables.objs == t.objs.push(
                ObjEntryModel { key: f.key, end: None, flat, mesh: t.meshes.len() as int },
            ) && o.tables.mats == t.mats.push(g.value.0) && o.tables.mat_maps == t.mat_maps.push(
                g.value.1,
            )
            &&& known is Some ==> o.placed == (PlacedModel::Instance {
                mesh: known->Some_0,
                instead: Some(id),
                to_world: to_world_of(n, len),
                to_world_end: to_world_end_of(n, len),
            }) && o.tables.meshes == t.meshes && o.tables.objs == t.objs && o.tables.mats == t.mats.push(
                g.value.0,
            ) && o.tables.mat_maps == t.mat_maps.push(g.value.1)
            &&& known is None && f.error is Some ==> o.placed is Nothing && o.tables.meshes == t.meshes
                && o.tables.mats == t.mats
        }),
{
    lemma_types();
    types_are_attributes(n, "obj"@);
    properties_are_read(n, "string"@, "filename", file);
    properties_are_read(n, "string"@, "filename_end", file);
    the_first_child_counts(n, "bsdf"@, NameRule::Any, b);
    if unknown_mesh(t, f.key) {
        lemma_unknown(t.objs, f.key, None, boolean_of(n, "face_normals", false));
    }
}

/// A mesh with a file for its end moves if the two fit, and stands still at its first file if they
/// do not.
pub proof fn files_may_move(
    n: Node,
    file: Seq<char>,
    end: Seq<char>,
    len: spec_fn(Text3) -> u64,
    base: Seq<char>,
    f: FilesModel,
    images: Seq<ImageModel>,
    t: TablesModel,
    w: Seq<Seq<char>>,
)
    requires
        carries(n, "type"@, "obj"@),
        says(n, "string"@, "filename"@, file),
        says(n, "string"@, "filename_end"@, end),
        unknown_mesh(t, f.key),
        f.error is None,
    ensures
        ({
            let o = shape_of(n, len, base, f, images, t, w);
            let flat = boolean_of(n, "face_normals", false);
            &&& o.tables.meshes == t.meshes.push(
                MeshModel::Obj {
                    path: path_in(base, file),
                    end: if f.motion_error is None {
                        Some(path_in(base, end))
                    } else {
                        None
                    },
                    flat,
                    material: t.mats.len() as int,
                },
            )
            &&& o.tables.objs == t.objs.push(
                ObjEntryModel { key: f.key, end: Some(f.end_key), flat, mesh: t.meshes.len() as int },
            )
            &&& o.placed is Instance && o.placed->mesh == t.meshes.len()
            &&& needed_files(n, base) == Some((path_in(base, file), Some(path_in(base, end))))
        }),
{
    lemma_types();
    types_are_attributes(n, "obj"@);
    properties_are_read(n, "string"@, "filename", file);
    properties_are_read(n, "string"@, "filename_end", end);
    lemma_unknown(t.objs, f.key, Some(f.end_key), boolean_of(n, "face_normals", false));
}

/// A mesh without a material of its own, and without a light, is dressed from the libraries of its
/// file: one material for each of its names, from the first free place on, with the masks that cut
/// holes into them. That can be switched off.
pub proof fn meshes_are_dressed_from_libraries(
    n: Node,
    file: Seq<char>,
    len: spec_fn(Text3) -> u64,
    base: Seq<char>,
    f: FilesModel,
    images: Seq<ImageModel>,
    t: TablesModel,
    w: Seq<Seq<char>>,
)
    requires
        carries(n, "type"@, "obj"@),
        says(n, "string"@, "filename"@, file),
        silent(n, "string"@, "filename_end"@),
        none_of(n.children, tagged("bsdf"@)),
        none_of(n.children, area_light()),
        f.error is None,
    ensures
        silent(n, "boolean"@, "use_mtl"@) || says(
            n,
            "boolean"@,
            "use_mtl"@,
            seq!['t', 'r', 'u', 'e'],
        ) ==> {
            let o = shape_of(n, len, base, f, images, t, w);
            exists|v: Seq<Seq<char>>|
                {
                    let d = #[trigger] dress(t, v, f.mat_names, f.libraries, images);
                    &&& o.placed == (PlacedModel::Instance {
                        mesh: t.meshes.len() as int,
                        instead: None,
                        to_world: to_world_of(n, len),
                        to_world_end: to_world_end_of(n, len),
                    })
                    &&& o.tables.meshes == d.tables.meshes.push(
                        MeshModel::Dressed {
                            path: path_in(base, file),
                            flat: boolean_of(n, "face_normals", false),
                            base: t.mats.len() as int,
                            masks: distinct_masks(d.masks),
                            slots: mask_slots(d.masks),
                            opacities: d.opacities,
                        },
                    )
                    &&& o.tables.mats == d.tables.mats
                    &&& o.tables.mat_maps == d.tables.mat_maps
                    &&& o.tables.objs == d.tables.objs
                }
        },
        says(n, "boolean"@, "use_mtl"@, seq!['f', 'a', 'l', 's', 'e']) && unknown_mesh(t, f.key)
            ==> shape_of(n, len, base, f, images, t, w).tables.meshes == t.meshes.push(
            MeshModel::Obj {
                path: path_in(base, file),
                end: None,
                flat: boolean_of(n, "face_normals", false),
                material: t.mats.len() as int,
            },
        ),
{
    lemma_types();
    super::text_rules::blanks_are_space();
    super::text_rules::tight_text_is_left_alone(seq!['t', 'r', 'u', 'e']);
    super::text_rules::tight_text_is_left_alone(seq!['f', 'a', 'l', 's', 'e']);
    types_are_attributes(n, "obj"@);
    properties_are_read(n, "string"@, "filename", file);
    properties_are_read(n, "string"@, "filename_end", file);
    choices_are_read(n, "use_mtl", seq!['t', 'r', 'u', 'e'], true);
    choices_are_read(n, "use_mtl", seq!['f', 'a', 'l', 's', 'e'], true);
    the_first_child_counts(n, "bsdf"@, NameRule::Any, n);
    the_first_light_counts(n, n);
    if unknown_mesh(t, f.key) {
        lemma_unknown(t.objs, f.key, None, boolean_of(n, "face_normals", false));
    }
}

/// Faces are shaded flat only where that is asked for.
pub proof fn faces_are_smooth_unless_said(n: Node, v: Seq<char>)
    ensures
        silent(n, "boolean"@, "face_normals"@) ==> !boolean_of(n, "face_normals", false),
        says(n, "boolean"@, "face_normals"@, v) && v == seq!['t', 'r', 'u', 'e'] ==> boolean_of(
            n,
            "face_normals",
            false,
        ),
{
    super::text_rules::blanks_are_space();
    if v == seq!['t', 'r', 'u', 'e'] {
        super::text_rules::tight_text_is_left_alone(v);
    }
    choices_are_read(n, "face_normals", v, false);
}

/// A file needs what its element names, relative to where the scene is.
pub proof fn paths_are_relative_to_the_scene(base: Seq<char>, file: Seq<char>)
    requires
        file.len() > 0,
    ensures
        file[0] == '/' ==> path_in(base, file) == file,
        base.len() == 0 ==> path_in(base, file) == file,
        file[0] != '/' && base.len() > 0 && base.last() != '/' ==> path_in(base, file) == base + seq![
            '/',
        ] + file,
        file[0] != '/' && base.len() > 0 && base.last() == '/' ==> path_in(base, file) == base + file,
{
    assert(base.push('/') =~= base + seq!['/']);
}

/// A shape of an unknown kind, and one that should come from a file but names none, is not placed and
/// adds nothing.
pub proof fn unknown_shapes_are_not_placed(
    n: Node,
    k: Seq<char>,
    len: spec_fn(Text3) -> u64,
    base: Seq<char>,
    f: FilesModel,
    images: Seq<ImageModel>,
    t: TablesModel,
    w: Seq<Seq<char>>,
)
    requires
        carries(n, "type"@, k),
    ensures
        k != "sphere"@ && k != "rectangle"@ && k != "cube"@ && k != "disk"@ && k != "obj"@ ==> {
            let o = shape_of(n, len, base, f, images, t, w);
            o.placed is Nothing && o.tables.mats == t.mats && o.tables.meshes == t.meshes
        },
        k == "obj"@ && silent(n, "string"@, "filename"@) ==> {
            let o = shape_of(n, len, base, f, images, t, w);
            o.placed is Nothing && o.tables.mats == t.mats && o.tables.meshes == t.meshes
        },
{
    lemma_types();
    types_are_attributes(n, k);
    properties_are_read(n, "string"@, "filename", k);
}

} // verus!
