//! Shapes: what they are made of, and where they are put.
//!
//! What the files of a shape hold is known beforehand; what is decided here is which materials
//! and meshes the shape adds, which it shares, and what is left out.

use super::dressing::{
    add_materials, all_library_warnings, assign_masks, complete_libraries, distinct_masks, dress,
    library_files, mask_slots, one_material_for_each_name, warn_of_libraries, Library, LibraryFile,
};
use super::gauge::measures;
use super::lights::{triple_or, Text3};
use super::materials::{
    bsdf_of, default_material, emitter_of, emitter_warnings, fallback_material, image_models,
    opt_number, parse_bsdf, parse_emitter, text_else, text_or, Image, ImageModel, MaterialModel,
    MaterialPlan, Outcome, RegistryModel,
};
use super::props::{
    boolean_of, boolean_warnings, child, float_of, joined, prop_value, triple_of, typ, warn1, warn3,
    warn5, NameRule,
};
use super::scene::{is_delta, path_in, resolve_path};
use super::soundness::{
    additions_known, comes_to_nothing, library_known, only_adds, shapes_add_what_exists, shapes_only_add,
};
use super::tables::{
    in_step, mesh_for, with_material, with_mesh, with_obj, MeshEntry, MeshModel, ObjEntry,
    ObjEntryModel, SceneTables, TablesModel,
};
use super::transforms::{
    op_models, ops_of, ops_warnings, parse_transform, OpModel, TransformOp,
};
use super::xml::{lemma_node_children, nodes, Element, Node};
use crate::mtl::opt_text;
use crate::obj::{strings, Triple};
use crate::text::copied;
use vstd::prelude::*;

verus! {

/// What there is to know of the files of a shape.
pub struct ShapeFiles {
    /// The path that the mesh really has.
    pub key: String,
    /// The path that the mesh at the end of the motion really has.
    pub end_key: String,
    /// What went wrong if the mesh could not be read.
    pub error: Option<String>,
    /// What went wrong if the mesh does not fit the one at the end of the motion.
    pub motion_error: Option<String>,
    /// The names of the materials that its triangles use.
    pub mat_names: Vec<String>,
    /// The libraries that it refers to.
    pub libraries: Vec<Library>,
}

pub struct FilesModel {
    pub key: Seq<char>,
    pub end_key: Seq<char>,
    pub error: Option<Seq<char>>,
    pub motion_error: Option<Seq<char>>,
    pub mat_names: Seq<Seq<char>>,
    pub libraries: Seq<LibraryFile>,
}

impl View for ShapeFiles {
    type V = FilesModel;

    open spec fn view(&self) -> FilesModel {
        FilesModel {
            key: self.key@,
            end_key: self.end_key@,
            error: opt_text(self.error),
            motion_error: opt_text(self.motion_error),
            mat_names: strings(self.mat_names@),
            libraries: library_files(self.libraries@),
        }
    }
}

/// What a shape adds to a scene.
pub enum Placement {
    Nothing,
    Sphere { center: Triple, radius: String, material: usize },
    Instance {
        mesh: usize,
        /// The material of all its triangles, where the mesh is shared.
        instead: Option<usize>,
        to_world: Vec<TransformOp>,
        /// Where it is when the shutter closes, if it moves.
        to_world_end: Option<Vec<TransformOp>>,
    },
}

pub enum PlacedModel {
    Nothing,
    Sphere { center: Text3, radius: Seq<char>, material: int },
    Instance {
        mesh: int,
        instead: Option<int>,
        to_world: Seq<OpModel>,
        to_world_end: Option<Seq<OpModel>>,
    },
}

pub open spec fn opt_ops(o: Option<Vec<TransformOp>>) -> Option<Seq<OpModel>> {
    match o {
        Some(v) => Some(op_models(v@)),
        None => None,
    }
}

impl View for Placement {
    type V = PlacedModel;

    open spec fn view(&self) -> PlacedModel {
        match self {
            Placement::Nothing => PlacedModel::Nothing,
            Placement::Sphere { center, radius, material } => PlacedModel::Sphere {
                center: center@,
                radius: radius@,
                material: *material as int,
            },
            Placement::Instance { mesh, instead, to_world, to_world_end } => PlacedModel::Instance {
                mesh: *mesh as int,
                instead: opt_number(*instead),
                to_world: op_models(to_world@),
                to_world_end: opt_ops(*to_world_end),
            },
        }
    }
}

/// Where the light of a shape is among its children, or how many there are: the first emitter
/// that has an extent.
pub open spec fn emitter_index(c: Seq<Node>) -> int
    decreases c.len(),
{
    if c.len() == 0 || (c[0].tag == "emitter"@ && !is_delta(typ(c[0]))) {
        0
    } else {
        1 + emitter_index(c.skip(1))
    }
}

pub open spec fn shape_light(n: Node) -> Option<Node> {
    let i = emitter_index(n.children);
    if i < n.children.len() {
        Some(n.children[i])
    } else {
        None
    }
}

/// Whether a shape has an emitter without extent, which makes no sense there.
pub open spec fn has_delta_light(n: Node) -> bool {
    exists|i: int|
        0 <= i < n.children.len() && (#[trigger] n.children[i]).tag == "emitter"@ && is_delta(
            typ(n.children[i]),
        )
}

fn delta(el: &Element) -> (r: bool)
    ensures
        r == is_delta(typ(el.node())),
{
    el.is_typ("point") || el.is_typ("directional") || el.is_typ("spot")
}

/// The light of a shape.
pub fn shape_emitter(el: &Element) -> (r: Option<&Element>)
    ensures
        match r {
            Some(e) => shape_light(el.node()) == Some(e.node()),
            None => shape_light(el.node()) is None,
        },
{
    let ghost all = el.node().children;
    proof {
        lemma_node_children(el);
        assert(all.skip(0) =~= all);
    }
    let mut i: usize = 0;
    while i < el.children.len()
        invariant
            i <= el.children@.len(),
            all == el.node().children,
            all == nodes(el.children@),
            emitter_index(all) == i + emitter_index(all.skip(i as int)),
        decreases el.children@.len() - i,
    {
        let ghost rest = all.skip(i as int);
        assert(rest[0] == el.children@[i as int].node());
        let c: &Element = &el.children[i];
        if c.is_tag("emitter") && !delta(c) {
            return Some(c);
        }
        assert(rest.skip(1) =~= all.skip(i + 1));
        i += 1;
    }
    None
}

fn misplaced_light(el: &Element) -> (r: bool)
    ensures
        r == has_delta_light(el.node()),
{
    let ghost all = el.node().children;
    proof {
        lemma_node_children(el);
    }
    let mut i: usize = 0;
    while i < el.children.len()
        invariant
            i <= el.children@.len(),
            all == el.node().children,
            all == nodes(el.children@),
            forall|k: int|
                0 <= k < i ==> !((#[trigger] all[k]).tag == "emitter"@ && is_delta(typ(all[k]))),
        decreases el.children@.len() - i,
    {
        let c: &Element = &el.children[i];
        assert(all[i as int] == c.node());
        if c.is_tag("emitter") && delta(c) {
            return true;
        }
        i += 1;
    }
    false
}

/// What a shape is warned of for what it should not hold.
pub open spec fn misplaced_warnings(n: Node) -> Seq<Seq<char>> {
    (if has_delta_light(n) {
        seq![
            "point / directional / spot <emitter> inside a <shape> is unsupported (they have no geometry); skipped. Put it directly under <scene>"@,
        ]
    } else {
        Seq::<Seq<char>>::empty()
    }) + (if child(n, "medium"@, NameRule::Any) is Some {
        seq![
            "<medium> inside a <shape> is unsupported (interior media); skipped. Put it directly under <scene>"@,
        ]
    } else {
        Seq::<Seq<char>>::empty()
    })
}

/// Whether a mesh could have the materials that its file names: it is given none here, and does
/// not move.
pub open spec fn may_use_library(n: Node) -> bool {
    typ(n) == "obj"@ && child(n, "bsdf"@, NameRule::Any) is None && shape_light(n) is None
        && prop_value(n, "string"@, "filename_end") is None
}

/// Whether a mesh has the materials that its file names.
pub open spec fn uses_library(n: Node) -> bool {
    may_use_library(n) && boolean_of(n, "use_mtl", true)
}

pub open spec fn library_choice_warnings(n: Node) -> Seq<Seq<char>> {
    if may_use_library(n) {
        boolean_warnings(n, "use_mtl", true)
    } else {
        Seq::empty()
    }
}

/// The material that a shape is given: its light counts for more than a surface; without either
/// it is grey.
pub open spec fn given_material(
    n: Node,
    base: Seq<char>,
    images: Seq<ImageModel>,
    reg: RegistryModel,
) -> Outcome<(MaterialModel, Option<int>)> {
    match shape_light(n) {
        Some(e) => Outcome {
            value: (emitter_of(e), None),
            registry: reg,
            warnings: emitter_warnings(e),
        },
        None => match child(n, "bsdf"@, NameRule::Any) {
            Some(b) => bsdf_of(b, base, images, reg),
            None => Outcome {
                value: (default_material(), None),
                registry: reg,
                warnings: seq![
                    "shape type '"@ + typ(n)
                        + "' without bsdf or emitter; defaulting to diffuse"@,
                ],
            },
        },
    }
}

/// Where a shape is put: a transformation without a name counts too.
pub open spec fn to_world_of(n: Node, len: spec_fn(Text3) -> u64) -> Seq<OpModel> {
    match child(n, "transform"@, NameRule::MissingOr("to_world")) {
        Some(t) => ops_of(t.children, len),
        None => Seq::empty(),
    }
}

pub open spec fn to_world_warnings(n: Node, len: spec_fn(Text3) -> u64) -> Seq<Seq<char>> {
    match child(n, "transform"@, NameRule::MissingOr("to_world")) {
        Some(t) => ops_warnings(t.children, len),
        None => Seq::empty(),
    }
}

pub open spec fn end_transform(n: Node) -> Option<Node> {
    child(n, "transform"@, NameRule::Is("to_world_end"))
}

/// Where a shape is when the shutter closes, if it moves: a light does not.
pub open spec fn to_world_end_of(n: Node, len: spec_fn(Text3) -> u64) -> Option<
    Seq<OpModel>,
> {
    match end_transform(n) {
        Some(t) => if shape_light(n) is Some {
            None
        } else {
            Some(ops_of(t.children, len))
        },
        None => None,
    }
}

pub open spec fn to_world_end_warnings(n: Node, len: spec_fn(Text3) -> u64) -> Seq<Seq<char>> {
    match end_transform(n) {
        Some(t) => if shape_light(n) is Some {
            seq![
                "to_world_end on an area-light shape is unsupported (the light would not move); ignored"@,
            ]
        } else {
            ops_warnings(t.children, len)
        },
        None => Seq::empty(),
    }
}

/// What a shape comes to: what it adds, the tables afterwards, and all warnings.
pub struct ShapeOutcome {
    pub placed: PlacedModel,
    pub tables: TablesModel,
    pub warnings: Seq<Seq<char>>,
}

/// Whether two shapes add the same but for the steps of their transformations.
pub open spec fn placed_alike(a: PlacedModel, b: PlacedModel) -> bool {
    match (a, b) {
        (
            PlacedModel::Instance { mesh, instead, to_world_end, .. },
            PlacedModel::Instance { mesh: m, instead: i, to_world_end: e, .. },
        ) => mesh == m && instead == i && (to_world_end is Some <==> e is Some),
        _ => a == b,
    }
}

/// An instance of a mesh.
pub open spec fn instance(
    n: Node,
    len: spec_fn(Text3) -> u64,
    mesh: int,
    instead: Option<int>,
    t: TablesModel,
    w: Seq<Seq<char>>,
) -> ShapeOutcome {
    ShapeOutcome {
        placed: PlacedModel::Instance {
            mesh,
            instead,
            to_world: to_world_of(n, len),
            to_world_end: to_world_end_of(n, len),
        },
        tables: t,
        warnings: w + to_world_warnings(n, len) + to_world_end_warnings(n, len),
    }
}

/// A new mesh with an instance of it.
pub open spec fn new_mesh(
    n: Node,
    len: spec_fn(Text3) -> u64,
    m: MeshModel,
    mat: (MaterialModel, Option<int>),
    t: TablesModel,
    w: Seq<Seq<char>>,
) -> ShapeOutcome {
    instance(
        n,
        len,
        t.meshes.len() as int,
        None,
        with_mesh(with_material(t, mat.0, mat.1), m),
        w,
    )
}

pub open spec fn skipped(t: TablesModel, w: Seq<Seq<char>>) -> ShapeOutcome {
    ShapeOutcome { placed: PlacedModel::Nothing, tables: t, warnings: w }
}

pub open spec fn obj_failed(path: Seq<char>, error: Seq<char>) -> Seq<char> {
    "failed to load obj '"@ + path + "': "@ + error + "; skipped"@
}

pub open spec fn motion_failed(path: Seq<char>, end: Seq<char>, error: Seq<char>) -> Seq<char> {
    "vertex motion '"@ + path + "' -> '"@ + end + ("' unusable: "@ + error
        + "; loading without vertex motion"@)
}

/// The file with the positions at the end of the motion.
pub open spec fn end_file(n: Node, base: Seq<char>) -> Option<Seq<char>> {
    match prop_value(n, "string"@, "filename_end") {
        Some(f) => Some(path_in(base, f)),
        None => None,
    }
}

/// A mesh out of a file: shared with an earlier shape if it is the same, and without its motion
/// if that cannot be had.
pub open spec fn obj_shape(
    n: Node,
    len: spec_fn(Text3) -> u64,
    base: Seq<char>,
    f: FilesModel,
    flat: bool,
    mat: (MaterialModel, Option<int>),
    t: TablesModel,
    w: Seq<Seq<char>>,
) -> ShapeOutcome {
    match prop_value(n, "string"@, "filename") {
        None => skipped(t, w.push("obj shape without filename; skipped"@)),
        Some(file) => {
            let path = path_in(base, file);
            let end = end_file(n, base);
            let end_key = if end is Some {
                Some(f.end_key)
            } else {
                None
            };
            match mesh_for(t.objs, f.key, end_key, flat) {
                Some(mesh) => instance(
                    n,
                    len,
                    mesh,
                    Some(t.mats.len() as int),
                    with_material(t, mat.0, mat.1),
                    w,
                ),
                None => {
                    let moves = end is Some && f.motion_error is None;
                    let v = if end is Some && f.motion_error is Some {
                        w.push(motion_failed(path, end->Some_0, f.motion_error->Some_0))
                    } else {
                        w
                    };
                    if !moves && f.error is Some {
                        skipped(t, v.push(obj_failed(path, f.error->Some_0)))
                    } else {
                        let m = MeshModel::Obj {
                            path,
                            end: if moves {
                                end
                            } else {
                                None
                            },
                            flat,
                            material: t.mats.len() as int,
                        };
                        let o = new_mesh(n, len, m, mat, t, v);
                        ShapeOutcome {
                            tables: with_obj(
                                o.tables,
                                ObjEntryModel {
                                    key: f.key,
                                    end: end_key,
                                    flat,
                                    mesh: t.meshes.len() as int,
                                },
                            ),
                            ..o
                        }
                    }
                },
            }
        },
    }
}

/// A mesh that has the materials that its file names.
pub open spec fn library_shape(
    n: Node,
    len: spec_fn(Text3) -> u64,
    base: Seq<char>,
    f: FilesModel,
    images: Seq<ImageModel>,
    t: TablesModel,
    w: Seq<Seq<char>>,
) -> ShapeOutcome {
    match prop_value(n, "string"@, "filename") {
        None => skipped(t, w.push("obj shape without filename; skipped"@)),
        Some(file) => {
            let path = path_in(base, file);
            match f.error {
                Some(e) => skipped(t, w.push(obj_failed(path, e))),
                None => {
                    let w1 = w + boolean_warnings(n, "face_normals", false) + all_library_warnings(
                        f.libraries,
                    );
                    let w2 = if f.libraries.len() == 0 {
                        w1.push(
                            "obj '"@ + path
                                + "' has no mtllib and the shape has no bsdf; defaulting to diffuse"@,
                        )
                    } else {
                        w1
                    };
                    let d = dress(t, w2, f.mat_names, f.libraries, images);
                    let m = MeshModel::Dressed {
                        path,
                        flat: boolean_of(n, "face_normals", false),
                        base: t.mats.len() as int,
                        masks: distinct_masks(d.masks),
                        slots: mask_slots(d.masks),
                        opacities: d.opacities,
                    };
                    instance(
                        n,
                        len,
                        t.meshes.len() as int,
                        None,
                        with_mesh(d.tables, m),
                        d.warnings,
                    )
                },
            }
        },
    }
}

/// What a shape comes to.
pub open spec fn shape_of(
    n: Node,
    len: spec_fn(Text3) -> u64,
    base: Seq<char>,
    f: FilesModel,
    images: Seq<ImageModel>,
    t: TablesModel,
    w: Seq<Seq<char>>,
) -> ShapeOutcome {
    let w0 = w + misplaced_warnings(n) + library_choice_warnings(n);
    if uses_library(n) {
        library_shape(n, len, base, f, images, t, w0)
    } else {
        let g = given_material(n, base, images, t.registry);
        let t1 = TablesModel { registry: g.registry, ..t };
        let flat = boolean_of(n, "face_normals", false);
        let w1 = w0 + g.warnings + boolean_warnings(n, "face_normals", false);
        let id = t.mats.len() as int;
        if typ(n) == "sphere"@ {
            ShapeOutcome {
                placed: PlacedModel::Sphere {
                    center: triple_or(triple_of(n, "point"@, "center"), ("0"@, "0"@, "0"@)),
                    radius: text_or(float_of(n, "radius"), "1"@),
                    material: id,
                },
                tables: with_material(t1, g.value.0, g.value.1),
                warnings: if end_transform(n) is Some {
                    w1.push(
                        "to_world_end on a sphere is unsupported (only mesh shapes can move); ignored"@,
                    )
                } else {
                    w1
                },
            }
        } else if typ(n) == "rectangle"@ {
            new_mesh(n, len, MeshModel::Rectangle(id), g.value, t1, w1)
        } else if typ(n) == "cube"@ {
            new_mesh(n, len, MeshModel::Cube(id), g.value, t1, w1)
        } else if typ(n) == "disk"@ {
            new_mesh(n, len, MeshModel::Disk(id), g.value, t1, w1)
        } else if typ(n) == "obj"@ {
            obj_shape(n, len, base, f, flat, g.value, t1, w1)
        } else {
            skipped(t1, w1.push("unsupported shape type '"@ + typ(n) + "', skipped"@))
        }
    }
}

/// The files that a shape needs: its mesh, and the mesh at the end of its motion.
pub open spec fn needed_files(n: Node, base: Seq<char>) -> Option<(Seq<char>, Option<Seq<char>>)> {
    if typ(n) != "obj"@ {
        None
    } else {
        match prop_value(n, "string"@, "filename") {
            None => None,
            Some(f) => Some((path_in(base, f), end_file(n, base))),
        }
    }
}

/// The files that a shape needs: its mesh, and the mesh at the end of its motion.
pub fn shape_files(el: &Element, base_dir: &str) -> (r: Option<(String, Option<String>)>)
    ensures
        match needed_files(el.node(), base_dir@) {
            Some((p, e)) => r matches Some((q, f)) && q@ == p && opt_text(f) == e,
            None => r is None,
        },
{
    if !el.is_typ("obj") {
        return None;
    }
    let end = match el.string("filename_end") {
        Some(f) => Some(resolve_path(base_dir, f)),
        None => None,
    };
    match el.string("filename") {
        Some(f) => Some((resolve_path(base_dir, f), end)),
        None => None,
    }
}

/// Where a shape is put.
pub fn shape_to_world<L: Fn(&Triple) -> u64>(
    el: &Element,
    length: &L,
    warnings: &mut Vec<String>,
) -> (r: Vec<TransformOp>)
    requires
        forall|t: &Triple| #[trigger] length.requires((t,)),
    ensures
        forall|len: spec_fn(Text3) -> u64| #[trigger]
            measures(*length, len) ==> op_models(r@) == to_world_of(el.node(), len) && strings(
                final(warnings)@,
            ) == strings(old(warnings)@) + to_world_warnings(el.node(), len),
{
    let ghost start = strings(warnings@);
    match el.pick("transform", NameRule::MissingOr("to_world")) {
        Some(t) => parse_transform(t, length, warnings),
        None => {
            let v: Vec<TransformOp> = Vec::new();
            assert(op_models(v@) =~= Seq::<OpModel>::empty());
            assert(start + Seq::<Seq<char>>::empty() =~= start);
            v
        },
    }
}

/// Where a shape is when the shutter closes, if it moves.
pub fn apply_end_transform<L: Fn(&Triple) -> u64>(
    el: &Element,
    length: &L,
    warnings: &mut Vec<String>,
) -> (r: Option<Vec<TransformOp>>)
    requires
        forall|t: &Triple| #[trigger] length.requires((t,)),
    ensures
        r is Some <==> end_transform(el.node()) is Some && shape_light(el.node()) is None,
        forall|len: spec_fn(Text3) -> u64| #[trigger]
            measures(*length, len) ==> opt_ops(r) == to_world_end_of(el.node(), len) && strings(
                final(warnings)@,
            ) == strings(old(warnings)@) + to_world_end_warnings(el.node(), len),
{
    let ghost start = strings(warnings@);
    match el.pick("transform", NameRule::Is("to_world_end")) {
        Some(t) => {
            if shape_emitter(el).is_some() {
                warn1(
                    warnings,
                    "to_world_end on an area-light shape is unsupported (the light would not move); ignored",
                );
                assert(strings(warnings@) =~= start + seq![
                    "to_world_end on an area-light shape is unsupported (the light would not move); ignored"@,
                ]);
                None
            } else {
                Some(parse_transform(t, length, warnings))
            }
        },
        None => {
            assert(start + Seq::<Seq<char>>::empty() =~= start);
            None
        },
    }
}

fn place<L: Fn(&Triple) -> u64>(
    el: &Element,
    length: &L,
    mesh: usize,
    instead: Option<usize>,
    warnings: &mut Vec<String>,
) -> (r: Placement)
    requires
        forall|t: &Triple| #[trigger] length.requires((t,)),
    ensures
        r@ matches PlacedModel::Instance { mesh: m, instead: i, to_world_end: e, .. } && m == mesh
            && i == opt_number(instead) && (e is Some <==> end_transform(el.node()) is Some
            && shape_light(el.node()) is None),
        forall|len: spec_fn(Text3) -> u64| #[trigger]
            measures(*length, len) ==> r@ == (PlacedModel::Instance {
                mesh: mesh as int,
                instead: opt_number(instead),
                to_world: to_world_of(el.node(), len),
                to_world_end: to_world_end_of(el.node(), len),
            }) && strings(final(warnings)@) == strings(old(warnings)@) + to_world_warnings(
                el.node(),
                len,
            ) + to_world_end_warnings(el.node(), len),
{
    let to_world = shape_to_world(el, length, warnings);
    let to_world_end = apply_end_transform(el, length, warnings);
    Placement::Instance { mesh, instead, to_world, to_world_end }
}

fn read_material(
    el: &Element,
    base_dir: &str,
    images: &Vec<Image>,
    tables: &mut SceneTables,
    warnings: &mut Vec<String>,
) -> (r: (MaterialPlan, Option<usize>))
    ensures
        ({
            let g = given_material(
                el.node(),
                base_dir@,
                image_models(images@),
                old(tables)@.registry,
            );
            &&& r.0@ == g.value.0
            &&& opt_number(r.1) == g.value.1
            &&& final(tables)@ == (TablesModel { registry: g.registry, ..old(tables)@ })
            &&& strings(final(warnings)@) == strings(old(warnings)@) + g.warnings
        }),
{
    let ghost start = strings(warnings@);
    let ghost g = given_material(el.node(), base_dir@, image_models(images@), tables@.registry);
    if let Some(e) = shape_emitter(el) {
        return (parse_emitter(e, warnings), None);
    }
    match el.child_tag("bsdf") {
        Some(b) => parse_bsdf(b, base_dir, images, &mut tables.registry, warnings),
        None => {
            warn3(
                warnings,
                "shape type '",
                el.typ(),
                "' without bsdf or emitter; defaulting to diffuse",
            );
            assert(strings(warnings@) =~= start + g.warnings);
            (fallback_material(), None)
        },
    }
}

/// Adds a mesh that has the materials that its file names. The tables do not depend on what
/// `length` answers.
pub fn parse_obj_with_mtl<L: Fn(&Triple) -> u64>(
    el: &Element,
    length: &L,
    base_dir: &str,
    files: &ShapeFiles,
    images: &Vec<Image>,
    tables: &mut SceneTables,
    warnings: &mut Vec<String>,
) -> (r: Placement)
    requires
        forall|t: &Triple| #[trigger] length.requires((t,)),
        in_step(old(tables)@),
        complete_libraries(files.libraries@),
    ensures
        in_step(final(tables)@),
        forall|len: spec_fn(Text3) -> u64|
            {
                let o = #[trigger] library_shape(
                    el.node(),
                    len,
                    base_dir@,
                    files@,
                    image_models(images@),
                    old(tables)@,
                    strings(old(warnings)@),
                );
                final(tables)@ == o.tables && placed_alike(r@, o.placed)
            },
        forall|len: spec_fn(Text3) -> u64| #[trigger]
            measures(*length, len) ==> library_shape(
                el.node(),
                len,
                base_dir@,
                files@,
                image_models(images@),
                old(tables)@,
                strings(old(warnings)@),
            ) == (ShapeOutcome {
                placed: r@,
                tables: final(tables)@,
                warnings: strings(final(warnings)@),
            }),
{
    let path = match el.string("filename") {
        Some(f) => resolve_path(base_dir, f),
        None => {
            warn1(warnings, "obj shape without filename; skipped");
            return Placement::Nothing;
        },
    };
    if let Some(e) = &files.error {
        warn5(warnings, "failed to load obj '", path.as_str(), "': ", e.as_str(), "; skipped");
        return Placement::Nothing;
    }
    let flat: bool = el.boolean_or("face_normals", false, warnings);
    warn_of_libraries(&files.libraries, warnings);
    if files.libraries.len() == 0 {
        warn3(
            warnings,
            "obj '",
            path.as_str(),
            "' has no mtllib and the shape has no bsdf; defaulting to diffuse",
        );
    }
    let base: usize = tables.mats.len();
    proof {
        one_material_for_each_name(
            tables@,
            strings(warnings@),
            files@.mat_names,
            files@.libraries,
            image_models(images@),
        );
    }
    let (materials, opacities) = add_materials(tables, &files.mat_names, &files.libraries, images, warnings);
    let (masks, slots) = assign_masks(&materials);
    let mesh: usize = tables.push_mesh(
        MeshEntry::Dressed { path, flat, base, masks, slots, opacities },
    );
    place(el, length, mesh, None, warnings)
}

fn parse_obj_shape<L: Fn(&Triple) -> u64>(
    el: &Element,
    length: &L,
    base_dir: &str,
    files: &ShapeFiles,
    flat: bool,
    mat: MaterialPlan,
    map: Option<usize>,
    tables: &mut SceneTables,
    warnings: &mut Vec<String>,
) -> (r: Placement)
    requires
        forall|t: &Triple| #[trigger] length.requires((t,)),
        in_step(old(tables)@),
    ensures
        in_step(final(tables)@),
        forall|len: spec_fn(Text3) -> u64|
            {
                let o = #[trigger] obj_shape(
                    el.node(),
                    len,
                    base_dir@,
                    files@,
                    flat,
                    (mat@, opt_number(map)),
                    old(tables)@,
                    strings(old(warnings)@),
                );
                final(tables)@ == o.tables && placed_alike(r@, o.placed)
            },
        forall|len: spec_fn(Text3) -> u64| #[trigger]
            measures(*length, len) ==> obj_shape(
                el.node(),
                len,
                base_dir@,
                files@,
                flat,
                (mat@, opt_number(map)),
                old(tables)@,
                strings(old(warnings)@),
            ) == (ShapeOutcome {
                placed: r@,
                tables: final(tables)@,
                warnings: strings(final(warnings)@),
            }),
{
    let path = match el.string("filename") {
        Some(f) => resolve_path(base_dir, f),
        None => {
            warn1(warnings, "obj shape without filename; skipped");
            return Placement::Nothing;
        },
    };
    let end: Option<String> = match el.string("filename_end") {
        Some(f) => Some(resolve_path(base_dir, f)),
        None => None,
    };
    let end_key: Option<&str> = if end.is_some() {
        Some(files.end_key.as_str())
    } else {
        None
    };
    if let Some(mesh) = tables.find_obj(files.key.as_str(), end_key, flat) {
        let id: usize = tables.push_material(mat, map);
        return place(el, length, mesh, Some(id), warnings);
    }
    let mut moves: bool = false;
    if let Some(e) = &end {
        match &files.motion_error {
            Some(m) => {
                let tail = joined("' unusable: ", m.as_str());
                let rest = joined(tail.as_str(), "; loading without vertex motion");
                warn5(
                    warnings,
                    "vertex motion '",
                    path.as_str(),
                    "' -> '",
                    e.as_str(),
                    rest.as_str(),
                );
            },
            None => {
                moves = true;
            },
        }
    }
    if !moves {
        if let Some(e) = &files.error {
            warn5(
                warnings,
                "failed to load obj '",
                path.as_str(),
                "': ",
                e.as_str(),
                "; skipped",
            );
            return Placement::Nothing;
        }
    }
    let kept_key: Option<String> = if end.is_some() {
        Some(copied(files.end_key.as_str()))
    } else {
        None
    };
    let kept_end: Option<String> = if moves {
        end
    } else {
        None
    };
    let id: usize = tables.push_material(mat, map);
    let mesh: usize = tables.push_mesh(
        MeshEntry::Obj { path, end: kept_end, flat, material: id },
    );
    tables.remember_obj(
        ObjEntry { key: copied(files.key.as_str()), end: kept_key, flat, mesh },
    );
    place(el, length, mesh, None, warnings)
}

/// Adds a shape to a scene. The tables only grow, and in step, whatever `length` answers; it
/// decides on nothing but steps of transformations.
pub fn parse_shape<L: Fn(&Triple) -> u64>(
    el: &Element,
    length: &L,
    base_dir: &str,
    files: &ShapeFiles,
    images: &Vec<Image>,
    tables: &mut SceneTables,
    warnings: &mut Vec<String>,
) -> (r: Placement)
    requires
        forall|t: &Triple| #[trigger] length.requires((t,)),
        in_step(old(tables)@),
        complete_libraries(files.libraries@),
    ensures
        in_step(final(tables)@),
        only_adds(old(tables)@, final(tables)@),
        library_known(old(tables)@.registry, old(tables)@.library) ==> library_known(
            final(tables)@.registry,
            final(tables)@.library,
        ) && additions_known(old(tables)@, final(tables)@),
        r is Nothing <==> comes_to_nothing(el.node(), base_dir@, files@, old(tables)@),
        r is Nothing ==> final(tables)@.mats == old(tables)@.mats && final(tables)@.mat_maps
            == old(tables)@.mat_maps && final(tables)@.meshes == old(tables)@.meshes,
        forall|len: spec_fn(Text3) -> u64|
            {
                let o = #[trigger] shape_of(
                    el.node(),
                    len,
                    base_dir@,
                    files@,
                    image_models(images@),
                    old(tables)@,
                    strings(old(warnings)@),
                );
                final(tables)@ == o.tables && placed_alike(r@, o.placed)
            },
        forall|len: spec_fn(Text3) -> u64| #[trigger]
            measures(*length, len) ==> shape_of(
                el.node(),
                len,
                base_dir@,
                files@,
                image_models(images@),
                old(tables)@,
                strings(old(warnings)@),
            ) == (ShapeOutcome {
                placed: r@,
                tables: final(tables)@,
                warnings: strings(final(warnings)@),
            }),
{
    let ghost n = el.node();
    let ghost w = strings(warnings@);
    proof {
        let len = |t: Text3| 0u64;
        let t = tables@;
        shapes_only_add(n, len, base_dir@, files@, image_models(images@), t, w);
        if library_known(t.registry, t.library) {
            shapes_add_what_exists(n, len, base_dir@, files@, image_models(images@), t, w);
        }
    }
    if misplaced_light(el) {
        warn1(
            warnings,
            "point / directional / spot <emitter> inside a <shape> is unsupported (they have no geometry); skipped. Put it directly under <scene>",
        );
    }
    if el.child_tag("medium").is_some() {
        warn1(
            warnings,
            "<medium> inside a <shape> is unsupported (interior media); skipped. Put it directly under <scene>",
        );
    }
    assert(strings(warnings@) =~= w + misplaced_warnings(n));
    let candidate: bool = el.is_typ("obj") && el.child_tag("bsdf").is_none() && shape_emitter(
        el,
    ).is_none() && el.string("filename_end").is_none();
    if candidate {
        if el.boolean_or("use_mtl", true, warnings) {
            return parse_obj_with_mtl(el, length, base_dir, files, images, tables, warnings);
        }
    }
    assert(strings(warnings@) =~= w + misplaced_warnings(n) + library_choice_warnings(n));
    let (mat, map) = read_material(el, base_dir, images, tables, warnings);
    let flat: bool = el.boolean_or("face_normals", false, warnings);
    if el.is_typ("sphere") {
        let center = match el.point("center") {
            Some(c) => c,
            None => Triple { x: copied("0"), y: copied("0"), z: copied("0") },
        };
        let radius = text_else(el.float("radius"), "1");
        let material: usize = tables.push_material(mat, map);
        if el.pick("transform", NameRule::Is("to_world_end")).is_some() {
            warn1(
                warnings,
                "to_world_end on a sphere is unsupported (only mesh shapes can move); ignored",
            );
        }
        return Placement::Sphere { center, radius, material };
    }
    if el.is_typ("obj") {
        proof {
            reveal_strlit("obj");
            reveal_strlit("rectangle");
            reveal_strlit("cube");
            reveal_strlit("disk");
            assert("obj"@.len() == 3 && "rectangle"@.len() == 9 && "cube"@.len() == 4 && "disk"@.len()
                == 4);
        }
        return parse_obj_shape(el, length, base_dir, files, flat, mat, map, tables, warnings);
    }
    let square: bool = el.is_typ("rectangle");
    let cube: bool = !square && el.is_typ("cube");
    if square || cube || el.is_typ("disk") {
        let id: usize = tables.push_material(mat, map);
        let entry = if square {
            MeshEntry::Rectangle(id)
        } else if cube {
            MeshEntry::Cube(id)
        } else {
            MeshEntry::Disk(id)
        };
        let mesh: usize = tables.push_mesh(entry);
        return place(el, length, mesh, None, warnings);
    }
    warn3(warnings, "unsupported shape type '", el.typ(), "', skipped");
    Placement::Nothing
}

/// Whether every file in use is in use as a mesh that exists.
pub open spec fn meshes_known(t: TablesModel) -> bool {
    forall|i: int| 0 <= i < t.objs.len() ==> 0 <= (#[trigger] t.objs[i]).mesh < t.meshes.len()
}

proof fn lemma_mesh_for(
    o: Seq<ObjEntryModel>,
    n: int,
    key: Seq<char>,
    end: Option<Seq<char>>,
    flat: bool,
)
    requires
        forall|i: int| 0 <= i < o.len() ==> 0 <= (#[trigger] o[i]).mesh < n,
    ensures
        mesh_for(o, key, end, flat) matches Some(m) ==> 0 <= m < n,
    decreases o.len(),
{
    if o.len() > 0 {
        assert(0 <= o[0].mesh < n);
        assert forall|i: int| 0 <= i < o.skip(1).len() implies 0 <= (#[trigger] o.skip(
            1,
        )[i]).mesh < n by {
            assert(o.skip(1)[i] == o[i + 1]);
        }
        lemma_mesh_for(o.skip(1), n, key, end, flat);
    }
}

/// Whatever a shape refers to exists: the material of a sphere, the mesh of an instance, and the
/// material that it has instead. Materials and meshes that were there before stay as they were.
pub proof fn placements_are_known(
    n: Node,
    len: spec_fn(Text3) -> u64,
    base: Seq<char>,
    f: FilesModel,
    images: Seq<ImageModel>,
    t: TablesModel,
    w: Seq<Seq<char>>,
)
    requires
        in_step(t),
        meshes_known(t),
    ensures
        ({
            let o = shape_of(n, len, base, f, images, t, w);
            &&& meshes_known(o.tables)
            &&& in_step(o.tables)
            &&& t.mats.is_prefix_of(o.tables.mats)
            &&& t.meshes.is_prefix_of(o.tables.meshes)
            &&& match o.placed {
                PlacedModel::Nothing => true,
                PlacedModel::Sphere { material, .. } => 0 <= material < o.tables.mats.len(),
                PlacedModel::Instance { mesh, instead, .. } => 0 <= mesh < o.tables.meshes.len()
                    && (instead matches Some(m) ==> 0 <= m < o.tables.mats.len()),
            }
        }),
{
    let o = shape_of(n, len, base, f, images, t, w);
    let w0 = w + misplaced_warnings(n) + library_choice_warnings(n);
    if uses_library(n) {
        let w1 = w0 + boolean_warnings(n, "face_normals", false) + all_library_warnings(
            f.libraries,
        );
        let path = path_in(base, prop_value(n, "string"@, "filename")->Some_0);
        let w2 = if f.libraries.len() == 0 {
            w1.push(
                "obj '"@ + path
                    + "' has no mtllib and the shape has no bsdf; defaulting to diffuse"@,
            )
        } else {
            w1
        };
        one_material_for_each_name(t, w2, f.mat_names, f.libraries, images);
        let d = dress(t, w2, f.mat_names, f.libraries, images);
        assert(t.mats.is_prefix_of(d.tables.mats)) by {
            assert(d.tables.mats.take(t.mats.len() as int) =~= t.mats);
        }
    } else {
        let end_key = if end_file(n, base) is Some {
            Some(f.end_key)
        } else {
            None
        };
        lemma_mesh_for(
            t.objs,
            t.meshes.len() as int,
            f.key,
            end_key,
            boolean_of(n, "face_normals", false),
        );
    }
}

} // verus!
