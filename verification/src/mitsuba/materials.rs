//! Materials, and the images that they use.
//!
//! Whether an image can be read, and as what, is known beforehand; what is decided here is which
//! images are used, in which order they are numbered, and what a material falls back to without
//! them.

use super::props::{
    boolean_of, boolean_warnings, child, child_index, color_of, float_of, grey, grey_text,
    lemma_child_index, opt_color, prop_value, typ, warn1, warn3, warn5, ColorModel, ColorText,
    NameRule,
};
use super::scene::{path_in, resolve_path};
use super::xml::{lemma_node_children, Element, Node};
use crate::mtl::opt_text;
use crate::obj::strings;
use crate::text::{copied, same_str};
use crate::texture::{wrap_named, Wrap};
use vstd::prelude::*;

verus! {

/// An image file: the path by which it is asked for, the path that it really has, and what went
/// wrong if it could not be read. Textures, maps and masks are not in the formats of an
/// environment, so a file that can be read as the one may not be one that can be read as the other.
pub struct Image {
    pub path: String,
    pub key: String,
    /// What went wrong as a texture, a map or a mask.
    pub error: Option<String>,
    /// What went wrong as an environment.
    pub environment_error: Option<String>,
}

pub struct ImageModel {
    pub path: Seq<char>,
    pub key: Seq<char>,
    pub error: Option<Seq<char>>,
    pub environment_error: Option<Seq<char>>,
}

impl View for Image {
    type V = ImageModel;

    open spec fn view(&self) -> ImageModel {
        ImageModel {
            path: self.path@,
            key: self.key@,
            error: opt_text(self.error),
            environment_error: opt_text(self.environment_error),
        }
    }
}

pub open spec fn image_models(v: Seq<Image>) -> Seq<ImageModel> {
    v.map_values(|i: Image| i@)
}

/// The first image with this path, or how many there are.
pub open spec fn image_index(v: Seq<ImageModel>, path: Seq<char>) -> int
    decreases v.len(),
{
    if v.len() == 0 || v[0].path == path {
        0
    } else {
        1 + image_index(v.skip(1), path)
    }
}

/// What went wrong with an image as a texture, a map or a mask, if anything did. One that nobody
/// has tried cannot be read.
pub open spec fn image_error(v: Seq<ImageModel>, path: Seq<char>) -> Option<Seq<char>> {
    let i = image_index(v, path);
    if 0 <= i < v.len() {
        v[i].error
    } else {
        Some("not read"@)
    }
}

/// What went wrong with an image as an environment, if anything did. One that nobody has tried
/// cannot be read.
pub open spec fn environment_error(v: Seq<ImageModel>, path: Seq<char>) -> Option<Seq<char>> {
    let i = image_index(v, path);
    if 0 <= i < v.len() {
        v[i].environment_error
    } else {
        Some("not read"@)
    }
}

/// The path that an image really has; one that nobody has tried has its own.
pub open spec fn image_key(v: Seq<ImageModel>, path: Seq<char>) -> Seq<char> {
    let i = image_index(v, path);
    if 0 <= i < v.len() {
        v[i].key
    } else {
        path
    }
}

fn find_image(v: &Vec<Image>, path: &str) -> (r: usize)
    ensures
        r == image_index(image_models(v@), path@),
        r <= v@.len(),
{
    let ghost all = image_models(v@);
    let mut i: usize = 0;
    assert(all.skip(0) =~= all);
    while i < v.len()
        invariant
            i <= v@.len(),
            all == image_models(v@),
            image_index(all, path@) == i + image_index(all.skip(i as int), path@),
        decreases v@.len() - i,
    {
        let ghost rest = all.skip(i as int);
        assert(rest[0] == v@[i as int]@);
        if same_str(v[i].path.as_str(), path) {
            return i;
        }
        assert(rest.skip(1) =~= all.skip(i + 1));
        i += 1;
    }
    i
}

/// What went wrong with an image as a texture, a map or a mask, if anything did.
pub fn error_of(v: &Vec<Image>, path: &str) -> (r: Option<String>)
    ensures
        opt_text(r) == image_error(image_models(v@), path@),
{
    let i: usize = find_image(v, path);
    if i < v.len() {
        assert(image_models(v@)[i as int] == v@[i as int]@);
        match &v[i].error {
            Some(e) => Some(copied(e.as_str())),
            None => None,
        }
    } else {
        Some(copied("not read"))
    }
}

/// What went wrong with an image as an environment, if anything did.
pub fn environment_error_of(v: &Vec<Image>, path: &str) -> (r: Option<String>)
    ensures
        opt_text(r) == environment_error(image_models(v@), path@),
{
    let i: usize = find_image(v, path);
    if i < v.len() {
        assert(image_models(v@)[i as int] == v@[i as int]@);
        match &v[i].environment_error {
            Some(e) => Some(copied(e.as_str())),
            None => None,
        }
    } else {
        Some(copied("not read"))
    }
}

/// The path that an image really has.
pub fn key_of(v: &Vec<Image>, path: &str) -> (r: String)
    ensures
        r@ == image_key(image_models(v@), path@),
{
    let i: usize = find_image(v, path);
    if i < v.len() {
        assert(image_models(v@)[i as int] == v@[i as int]@);
        copied(v[i].key.as_str())
    } else {
        copied(path)
    }
}

/// An image used as a texture.
pub struct TextureEntry {
    pub path: String,
    /// Whether its values are gamma-encoded.
    pub srgb: bool,
    pub wrap: Wrap,
}

pub struct TextureModel {
    pub path: Seq<char>,
    pub srgb: bool,
    pub wrap: Wrap,
}

impl View for TextureEntry {
    type V = TextureModel;

    open spec fn view(&self) -> TextureModel {
        TextureModel { path: self.path@, srgb: self.srgb, wrap: self.wrap }
    }
}

/// How an image bends the normals of a surface.
pub enum MapUse {
    /// It holds normals.
    Tangent,
    /// It holds heights, taken this many times.
    Height(String),
    /// It holds heights, taken as a material library asks for.
    LibraryHeight(String),
}

pub enum MapUseModel {
    Tangent,
    Height(Seq<char>),
    LibraryHeight(Seq<char>),
}

impl View for MapUse {
    type V = MapUseModel;

    open spec fn view(&self) -> MapUseModel {
        match self {
            MapUse::Tangent => MapUseModel::Tangent,
            MapUse::Height(s) => MapUseModel::Height(s@),
            MapUse::LibraryHeight(s) => MapUseModel::LibraryHeight(s@),
        }
    }
}

/// An image used to bend normals.
pub struct MapEntry {
    pub path: String,
    pub wrap: Wrap,
    pub used: MapUse,
}

pub struct MapModel {
    pub path: Seq<char>,
    pub wrap: Wrap,
    pub used: MapUseModel,
}

impl View for MapEntry {
    type V = MapModel;

    open spec fn view(&self) -> MapModel {
        MapModel { path: self.path@, wrap: self.wrap, used: self.used@ }
    }
}

/// The images in use, numbered in the order in which they were first asked for.
pub struct Registry {
    pub textures: Vec<TextureEntry>,
    pub normal_maps: Vec<MapEntry>,
}

pub struct RegistryModel {
    pub textures: Seq<TextureModel>,
    pub normal_maps: Seq<MapModel>,
}

impl View for Registry {
    type V = RegistryModel;

    open spec fn view(&self) -> RegistryModel {
        RegistryModel {
            textures: self.textures@.map_values(|t: TextureEntry| t@),
            normal_maps: self.normal_maps@.map_values(|m: MapEntry| m@),
        }
    }
}

impl Registry {
    /// No images.
    pub fn new() -> (r: Self)
        ensures
            r@ == (RegistryModel { textures: Seq::empty(), normal_maps: Seq::empty() }),
    {
        let r = Registry { textures: Vec::new(), normal_maps: Vec::new() };
        assert(r@.textures =~= Seq::<TextureModel>::empty());
        assert(r@.normal_maps =~= Seq::<MapModel>::empty());
        r
    }

    /// Adds a texture, and returns its number.
    pub fn add_texture(&mut self, t: TextureEntry) -> (i: usize)
        ensures
            i == old(self)@.textures.len(),
            final(self)@ == (RegistryModel {
                textures: old(self)@.textures.push(t@),
                normal_maps: old(self)@.normal_maps,
            }),
    {
        let i: usize = self.textures.len();
        let ghost before = self@;
        self.textures.push(t);
        assert(self@.textures =~= before.textures.push(t@));
        i
    }

    /// Adds a map, and returns its number.
    pub fn add_map(&mut self, m: MapEntry) -> (i: usize)
        ensures
            i == old(self)@.normal_maps.len(),
            final(self)@ == (RegistryModel {
                textures: old(self)@.textures,
                normal_maps: old(self)@.normal_maps.push(m@),
            }),
    {
        let i: usize = self.normal_maps.len();
        let ghost before = self@;
        self.normal_maps.push(m);
        assert(self@.normal_maps =~= before.normal_maps.push(m@));
        i
    }
}

/// How rough a surface is.
pub enum Roughness {
    /// As it is given.
    Alpha(String),
    /// By the specular exponent of a material library.
    Exponent(String),
}

pub enum RoughnessModel {
    Alpha(Seq<char>),
    Exponent(Seq<char>),
}

impl View for Roughness {
    type V = RoughnessModel;

    open spec fn view(&self) -> RoughnessModel {
        match self {
            Roughness::Alpha(s) => RoughnessModel::Alpha(s@),
            Roughness::Exponent(s) => RoughnessModel::Exponent(s@),
        }
    }
}

/// A material.
pub enum MaterialPlan {
    Lambert { albedo: ColorText, texture: Option<usize> },
    Metal { albedo: ColorText },
    Dielectric { int_ior: String, ext_ior: String, absorption: ColorText },
    Ggx { albedo: ColorText, roughness: Roughness },
    DiffuseLight { emit: ColorText },
}

pub enum MaterialModel {
    Lambert { albedo: ColorModel, texture: Option<int> },
    Metal { albedo: ColorModel },
    Dielectric { int_ior: Seq<char>, ext_ior: Seq<char>, absorption: ColorModel },
    Ggx { albedo: ColorModel, roughness: RoughnessModel },
    DiffuseLight { emit: ColorModel },
}

pub open spec fn opt_number(o: Option<usize>) -> Option<int> {
    match o {
        Some(i) => Some(i as int),
        None => None,
    }
}

impl View for MaterialPlan {
    type V = MaterialModel;

    open spec fn view(&self) -> MaterialModel {
        match self {
            MaterialPlan::Lambert { albedo, texture } => MaterialModel::Lambert {
                albedo: albedo@,
                texture: opt_number(*texture),
            },
            MaterialPlan::Metal { albedo } => MaterialModel::Metal { albedo: albedo@ },
            MaterialPlan::Dielectric { int_ior, ext_ior, absorption } => MaterialModel::Dielectric {
                int_ior: int_ior@,
                ext_ior: ext_ior@,
                absorption: absorption@,
            },
            MaterialPlan::Ggx { albedo, roughness } => MaterialModel::Ggx {
                albedo: albedo@,
                roughness: roughness@,
            },
            MaterialPlan::DiffuseLight { emit } => MaterialModel::DiffuseLight { emit: emit@ },
        }
    }
}

/// The grey that stands in for a missing material.
pub open spec fn default_material() -> MaterialModel {
    MaterialModel::Lambert { albedo: grey("0.5"@), texture: None }
}

/// The grey that stands in for a missing material.
pub fn fallback_material() -> (r: MaterialPlan)
    ensures
        r@ == default_material(),
{
    MaterialPlan::Lambert { albedo: grey_text("0.5"), texture: None }
}

/// A colour, or a grey in its place.
pub open spec fn color_or(c: Option<ColorModel>, s: Seq<char>) -> ColorModel {
    match c {
        Some(x) => x,
        None => grey(s),
    }
}

pub fn color_else(c: Option<ColorText>, s: &str) -> (r: ColorText)
    ensures
        r@ == color_or(opt_color(c), s@),
{
    match c {
        Some(x) => x,
        None => grey_text(s),
    }
}

/// A text, or another in its place.
pub open spec fn text_or(c: Option<Seq<char>>, s: Seq<char>) -> Seq<char> {
    match c {
        Some(x) => x,
        None => s,
    }
}

pub fn text_else(c: Option<String>, s: &str) -> (r: String)
    ensures
        r@ == text_or(opt_text(c), s@),
{
    match c {
        Some(x) => x,
        None => copied(s),
    }
}

/// The image that a bitmap texture names, and what lies beyond its edge.
pub open spec fn bitmap_of(n: Node, base: Seq<char>) -> Option<(Seq<char>, Wrap)> {
    if typ(n) != "bitmap"@ {
        None
    } else {
        match prop_value(n, "string"@, "filename") {
            None => None,
            Some(f) => Some(
                (
                    path_in(base, f),
                    match prop_value(n, "string"@, "wrap_mode") {
                        None => Wrap::Repeat,
                        Some(w) => match wrap_named(w) {
                            Some(v) => v,
                            None => Wrap::Repeat,
                        },
                    },
                ),
            ),
        }
    }
}

/// What reading a bitmap texture warns of.
pub open spec fn bitmap_warnings(n: Node) -> Seq<Seq<char>> {
    if typ(n) != "bitmap"@ {
        seq!["unsupported texture type '"@ + typ(n) + "', ignored"@]
    } else if prop_value(n, "string"@, "filename") is None {
        seq!["bitmap texture without filename; ignored"@]
    } else {
        match prop_value(n, "string"@, "wrap_mode") {
            None => Seq::empty(),
            Some(w) => if wrap_named(w) is Some {
                Seq::empty()
            } else {
                seq![
                    "unsupported wrap_mode '"@ + w
                        + "' (expected repeat or clamp); using repeat"@,
                ]
            },
        }
    }
}

/// The image that a bitmap texture names, and what lies beyond its edge.
pub fn bitmap_source(el: &Element, base_dir: &str, warnings: &mut Vec<String>) -> (r: Option<
    (String, Wrap),
>)
    ensures
        match bitmap_of(el.node(), base_dir@) {
            Some((p, w)) => r matches Some((q, v)) && q@ == p && v == w,
            None => r is None,
        },
        strings(final(warnings)@) == strings(old(warnings)@) + bitmap_warnings(el.node()),
{
    let ghost start = strings(warnings@);
    if !el.is_typ("bitmap") {
        warn3(warnings, "unsupported texture type '", el.typ(), "', ignored");
        assert(strings(warnings@) =~= start + bitmap_warnings(el.node()));
        return None;
    }
    let filename = match el.string("filename") {
        Some(f) => f,
        None => {
            warn1(warnings, "bitmap texture without filename; ignored");
            assert(strings(warnings@) =~= start + bitmap_warnings(el.node()));
            return None;
        },
    };
    let path = resolve_path(base_dir, filename);
    let wrap = match el.string("wrap_mode") {
        Some(w) => {
            match Wrap::from_str(w) {
                Some(v) => {
                    assert(strings(warnings@) =~= start + bitmap_warnings(el.node()));
                    v
                },
                None => {
                    warn3(
                        warnings,
                        "unsupported wrap_mode '",
                        w,
                        "' (expected repeat or clamp); using repeat",
                    );
                    assert(strings(warnings@) =~= start + bitmap_warnings(el.node()));
                    Wrap::Repeat
                },
            }
        },
        None => {
            assert(strings(warnings@) =~= start + bitmap_warnings(el.node()));
            Wrap::Repeat
        },
    };
    Some((path, wrap))
}

/// What reading something comes to: its value, the images in use afterwards, and the warnings.
pub struct Outcome<T> {
    pub value: T,
    pub registry: RegistryModel,
    pub warnings: Seq<Seq<char>>,
}

pub open spec fn load_failed(what: Seq<char>, path: Seq<char>, error: Seq<char>) -> Seq<char> {
    what + path + "': "@ + error + "; ignored"@
}

/// A colour texture: its number, if its image can be read.
pub open spec fn texture_of(
    n: Node,
    base: Seq<char>,
    images: Seq<ImageModel>,
    reg: RegistryModel,
) -> Outcome<Option<int>> {
    match bitmap_of(n, base) {
        None => Outcome { value: None, registry: reg, warnings: bitmap_warnings(n) },
        Some((path, wrap)) => {
            let w = bitmap_warnings(n) + boolean_warnings(n, "raw", false);
            match image_error(images, path) {
                None => Outcome {
                    value: Some(reg.textures.len() as int),
                    registry: RegistryModel {
                        textures: reg.textures.push(
                            TextureModel { path, srgb: !boolean_of(n, "raw", false), wrap },
                        ),
                        ..reg
                    },
                    warnings: w,
                },
                Some(e) => Outcome {
                    value: None,
                    registry: reg,
                    warnings: w.push(load_failed("failed to load texture '"@, path, e)),
                },
            }
        },
    }
}

/// Reads a colour texture.
pub fn parse_texture(
    el: &Element,
    base_dir: &str,
    images: &Vec<Image>,
    reg: &mut Registry,
    warnings: &mut Vec<String>,
) -> (r: Option<usize>)
    ensures
        ({
            let o = texture_of(el.node(), base_dir@, image_models(images@), old(reg)@);
            &&& opt_number(r) == o.value
            &&& final(reg)@ == o.registry
            &&& strings(final(warnings)@) == strings(old(warnings)@) + o.warnings
        }),
{
    let ghost start = strings(warnings@);
    let ghost o = texture_of(el.node(), base_dir@, image_models(images@), reg@);
    let (path, wrap) = match bitmap_source(el, base_dir, warnings) {
        Some(x) => x,
        None => {
            return None;
        },
    };
    let raw: bool = el.boolean_or("raw", false, warnings);
    match error_of(images, path.as_str()) {
        None => {
            assert(strings(warnings@) =~= start + o.warnings);
            Some(reg.add_texture(TextureEntry { path, srgb: !raw, wrap }))
        },
        Some(e) => {
            warn5(
                warnings,
                "failed to load texture '",
                path.as_str(),
                "': ",
                e.as_str(),
                "; ignored",
            );
            assert(strings(warnings@) =~= start + o.warnings);
            None
        },
    }
}

/// A plain material.
pub open spec fn leaf_of(
    n: Node,
    base: Seq<char>,
    images: Seq<ImageModel>,
    reg: RegistryModel,
) -> Outcome<MaterialModel> {
    let t = typ(n);
    if t == "diffuse"@ {
        match child(n, "texture"@, NameRule::Is("reflectance")) {
            None => Outcome {
                value: MaterialModel::Lambert {
                    albedo: color_or(color_of(n, "reflectance"), "0.5"@),
                    texture: None,
                },
                registry: reg,
                warnings: Seq::empty(),
            },
            Some(c) => {
                let o = texture_of(c, base, images, reg);
                Outcome {
                    value: MaterialModel::Lambert {
                        albedo: color_or(
                            color_of(n, "reflectance"),
                            if o.value is Some {
                                "1"@
                            } else {
                                "0.5"@
                            },
                        ),
                        texture: o.value,
                    },
                    registry: o.registry,
                    warnings: o.warnings,
                }
            },
        }
    } else if t == "conductor"@ {
        Outcome {
            value: MaterialModel::Metal {
                albedo: color_or(color_of(n, "specular_reflectance"), "1"@),
            },
            registry: reg,
            warnings: Seq::empty(),
        }
    } else if t == "roughconductor"@ {
        let dist = text_or(prop_value(n, "string"@, "distribution"), "ggx"@);
        Outcome {
            value: MaterialModel::Ggx {
                albedo: color_or(color_of(n, "specular_reflectance"), "1"@),
                roughness: RoughnessModel::Alpha(text_or(float_of(n, "alpha"), "0.1"@)),
            },
            registry: reg,
            warnings: if dist != "ggx"@ {
                seq!["roughconductor distribution '"@ + dist + "' unsupported; using ggx"@]
            } else {
                Seq::empty()
            },
        }
    } else if t == "dielectric"@ || t == "thindielectric"@ || t == "roughdielectric"@ {
        Outcome {
            value: MaterialModel::Dielectric {
                int_ior: text_or(float_of(n, "int_ior"), "1.5"@),
                ext_ior: text_or(float_of(n, "ext_ior"), "1"@),
                absorption: color_or(color_of(n, "absorption"), "0"@),
            },
            registry: reg,
            warnings: Seq::empty(),
        }
    } else {
        Outcome {
            value: MaterialModel::Lambert {
                albedo: color_or(color_of(n, "reflectance"), "0.5"@),
                texture: None,
            },
            registry: reg,
            warnings: seq!["unsupported bsdf type '"@ + t + "'; defaulting to diffuse"@],
        }
    }
}

/// Reads a plain material.
pub fn parse_leaf_bsdf(
    el: &Element,
    base_dir: &str,
    images: &Vec<Image>,
    reg: &mut Registry,
    warnings: &mut Vec<String>,
) -> (r: MaterialPlan)
    ensures
        ({
            let o = leaf_of(el.node(), base_dir@, image_models(images@), old(reg)@);
            &&& r@ == o.value
            &&& final(reg)@ == o.registry
            &&& strings(final(warnings)@) == strings(old(warnings)@) + o.warnings
        }),
{
    let ghost start = strings(warnings@);
    let ghost o = leaf_of(el.node(), base_dir@, image_models(images@), reg@);
    if el.is_typ("diffuse") {
        let texture: Option<usize> = match el.prop("texture", "reflectance") {
            Some(t) => parse_texture(t, base_dir, images, reg, warnings),
            None => None,
        };
        assert(strings(warnings@) =~= start + o.warnings);
        let albedo = color_else(
            el.color("reflectance"),
            if texture.is_some() {
                "1"
            } else {
                "0.5"
            },
        );
        MaterialPlan::Lambert { albedo, texture }
    } else if el.is_typ("conductor") {
        assert(strings(warnings@) =~= start + o.warnings);
        MaterialPlan::Metal { albedo: color_else(el.color("specular_reflectance"), "1") }
    } else if el.is_typ("roughconductor") {
        let dist: &str = match el.string("distribution") {
            Some(d) => d,
            None => "ggx",
        };
        if !same_str(dist, "ggx") {
            warn3(warnings, "roughconductor distribution '", dist, "' unsupported; using ggx");
        }
        assert(strings(warnings@) =~= start + o.warnings);
        MaterialPlan::Ggx {
            albedo: color_else(el.color("specular_reflectance"), "1"),
            roughness: Roughness::Alpha(text_else(el.float("alpha"), "0.1")),
        }
    } else if el.is_typ("dielectric") || el.is_typ("thindielectric") || el.is_typ(
        "roughdielectric",
    ) {
        assert(strings(warnings@) =~= start + o.warnings);
        MaterialPlan::Dielectric {
            int_ior: text_else(el.float("int_ior"), "1.5"),
            ext_ior: text_else(el.float("ext_ior"), "1"),
            absorption: color_else(el.color("absorption"), "0"),
        }
    } else {
        warn3(warnings, "unsupported bsdf type '", el.typ(), "'; defaulting to diffuse");
        assert(strings(warnings@) =~= start + o.warnings);
        MaterialPlan::Lambert { albedo: color_else(el.color("reflectance"), "0.5"), texture: None }
    }
}

/// The texture that a wrapper applies: the one of its name, else the first without a name.
pub open spec fn wrapped_texture(n: Node, name: &str) -> Option<Node> {
    match child(n, "texture"@, NameRule::Is(name)) {
        Some(c) => Some(c),
        None => child(n, "texture"@, NameRule::Missing),
    }
}

/// The texture that a wrapper applies.
pub fn wrapper_texture<'a>(el: &'a Element, name: &str) -> (r: Option<&'a Element>)
    ensures
        match wrapped_texture(el.node(), name) {
            Some(n) => r matches Some(e) && e.node() == n,
            None => r is None,
        },
{
    match el.prop("texture", name) {
        Some(t) => Some(t),
        None => el.pick("texture", NameRule::Missing),
    }
}

/// The map that a wrapper adds.
pub open spec fn map_of(
    n: Node,
    normals: bool,
    base: Seq<char>,
    images: Seq<ImageModel>,
    reg: RegistryModel,
) -> Outcome<Option<int>> {
    let name = if normals {
        "normalmap"
    } else {
        "bumpmap"
    };
    match wrapped_texture(n, name) {
        None => Outcome {
            value: None,
            registry: reg,
            warnings: seq![""@ + typ(n) + " without a <texture>; map ignored"@],
        },
        Some(t) => match bitmap_of(t, base) {
            None => Outcome { value: None, registry: reg, warnings: bitmap_warnings(t) },
            Some((path, wrap)) => {
                let w = bitmap_warnings(t) + (if normals {
                    boolean_warnings(t, "raw", true) + (if boolean_of(t, "raw", true) {
                        Seq::<Seq<char>>::empty()
                    } else {
                        seq![
                            "normalmap texture with raw=false: ignoring it and reading the map as linear (raw)"@,
                        ]
                    })
                } else {
                    Seq::<Seq<char>>::empty()
                });
                match image_error(images, path) {
                    None => Outcome {
                        value: Some(reg.normal_maps.len() as int),
                        registry: RegistryModel {
                            normal_maps: reg.normal_maps.push(
                                MapModel {
                                    path,
                                    wrap,
                                    used: if normals {
                                        MapUseModel::Tangent
                                    } else {
                                        MapUseModel::Height(text_or(float_of(n, "scale"), "1"@))
                                    },
                                },
                            ),
                            ..reg
                        },
                        warnings: w,
                    },
                    Some(e) => Outcome {
                        value: None,
                        registry: reg,
                        warnings: w.push(
                            load_failed(
                                if normals {
                                    "failed to load normal map '"@
                                } else {
                                    "failed to load height map '"@
                                },
                                path,
                                e,
                            ),
                        ),
                    },
                }
            },
        },
    }
}

fn parse_map(
    el: &Element,
    normals: bool,
    base_dir: &str,
    images: &Vec<Image>,
    reg: &mut Registry,
    warnings: &mut Vec<String>,
) -> (r: Option<usize>)
    ensures
        ({
            let o = map_of(el.node(), normals, base_dir@, image_models(images@), old(reg)@);
            &&& opt_number(r) == o.value
            &&& final(reg)@ == o.registry
            &&& strings(final(warnings)@) == strings(old(warnings)@) + o.warnings
        }),
{
    let ghost start = strings(warnings@);
    let ghost o = map_of(el.node(), normals, base_dir@, image_models(images@), reg@);
    let name: &str = if normals {
        "normalmap"
    } else {
        "bumpmap"
    };
    let t = match wrapper_texture(el, name) {
        Some(t) => t,
        None => {
            warn3(warnings, "", el.typ(), " without a <texture>; map ignored");
            assert(strings(warnings@) =~= start + o.warnings);
            return None;
        },
    };
    let (path, wrap) = match bitmap_source(t, base_dir, warnings) {
        Some(x) => x,
        None => {
            return None;
        },
    };
    if normals {
        if !t.boolean_or("raw", true, warnings) {
            warn1(
                warnings,
                "normalmap texture with raw=false: ignoring it and reading the map as linear (raw)",
            );
        }
    }
    match error_of(images, path.as_str()) {
        None => {
            assert(strings(warnings@) =~= start + o.warnings);
            let used = if normals {
                MapUse::Tangent
            } else {
                MapUse::Height(text_else(el.float("scale"), "1"))
            };
            Some(reg.add_map(MapEntry { path, wrap, used }))
        },
        Some(e) => {
            let what: &str = if normals {
                "failed to load normal map '"
            } else {
                "failed to load height map '"
            };
            warn5(warnings, what, path.as_str(), "': ", e.as_str(), "; ignored");
            assert(strings(warnings@) =~= start + o.warnings);
            None
        },
    }
}

/// A material and the map that bends its normals, if there is one.
pub open spec fn bsdf_of(
    n: Node,
    base: Seq<char>,
    images: Seq<ImageModel>,
    reg: RegistryModel,
) -> Outcome<(MaterialModel, Option<int>)>
    decreases n,
{
    let t = typ(n);
    let i = child_index(n.children, "bsdf"@, NameRule::Any);
    let has_inner = 0 <= i < n.children.len();
    if t == "twosided"@ {
        if has_inner {
            bsdf_of(n.children[i], base, images, reg)
        } else {
            Outcome {
                value: (default_material(), None),
                registry: reg,
                warnings: Seq::empty(),
            }
        }
    } else if t == "normalmap"@ || t == "bumpmap"@ {
        let inner = if has_inner {
            bsdf_of(n.children[i], base, images, reg)
        } else {
            Outcome {
                value: (default_material(), None),
                registry: reg,
                warnings: seq![""@ + t + " without an inner <bsdf>; defaulting to diffuse"@],
            }
        };
        let nested = if inner.value.1 is Some {
            seq!["nested "@ + t + " inside "@ + t + "; the outer map is used"@]
        } else {
            Seq::empty()
        };
        let map = map_of(n, t == "normalmap"@, base, images, inner.registry);
        Outcome {
            value: (
                inner.value.0,
                if map.value is Some {
                    map.value
                } else {
                    inner.value.1
                },
            ),
            registry: map.registry,
            warnings: inner.warnings + nested + map.warnings,
        }
    } else {
        let o = leaf_of(n, base, images, reg);
        Outcome { value: (o.value, None), registry: o.registry, warnings: o.warnings }
    }
}

/// Reads a material, and the map that bends its normals. A two-sided material is the one inside
/// it; of nested maps the outer one counts.
pub fn parse_bsdf(
    el: &Element,
    base_dir: &str,
    images: &Vec<Image>,
    reg: &mut Registry,
    warnings: &mut Vec<String>,
) -> (r: (MaterialPlan, Option<usize>))
    ensures
        ({
            let o = bsdf_of(el.node(), base_dir@, image_models(images@), old(reg)@);
            &&& r.0@ == o.value.0
            &&& opt_number(r.1) == o.value.1
            &&& final(reg)@ == o.registry
            &&& strings(final(warnings)@) == strings(old(warnings)@) + o.warnings
        }),
    decreases el,
{
    let ghost start = strings(warnings@);
    let ghost o = bsdf_of(el.node(), base_dir@, image_models(images@), reg@);
    proof {
        lemma_child_index(el.node().children, "bsdf"@, NameRule::Any);
        lemma_node_children(el);
    }
    if el.is_typ("twosided") {
        let i: usize = el.find_child("bsdf", NameRule::Any);
        if i < el.children.len() {
            return parse_bsdf(&el.children[i], base_dir, images, reg, warnings);
        }
        assert(strings(warnings@) =~= start + o.warnings);
        return (fallback_material(), None);
    }
    let normals: bool = el.is_typ("normalmap");
    if normals || el.is_typ("bumpmap") {
        let i: usize = el.find_child("bsdf", NameRule::Any);
        let (mat, inner_map) = if i < el.children.len() {
            parse_bsdf(&el.children[i], base_dir, images, reg, warnings)
        } else {
            warn3(warnings, "", el.typ(), " without an inner <bsdf>; defaulting to diffuse");
            (fallback_material(), None)
        };
        let ghost w1 = strings(warnings@);
        if inner_map.is_some() {
            warn5(
                warnings,
                "nested ",
                el.typ(),
                " inside ",
                el.typ(),
                "; the outer map is used",
            );
        }
        let map: Option<usize> = parse_map(el, normals, base_dir, images, reg, warnings);
        assert(strings(warnings@) =~= start + o.warnings);
        return match map {
            Some(_) => (mat, map),
            None => (mat, inner_map),
        };
    }
    let mat = parse_leaf_bsdf(el, base_dir, images, reg, warnings);
    assert(strings(warnings@) =~= start + o.warnings);
    (mat, None)
}

/// The light of a shape.
pub open spec fn emitter_of(n: Node) -> MaterialModel {
    MaterialModel::DiffuseLight { emit: color_or(color_of(n, "radiance"), "1"@) }
}

pub open spec fn emitter_warnings(n: Node) -> Seq<Seq<char>> {
    if typ(n) != "area"@ {
        seq!["emitter type '"@ + typ(n) + "' treated as area light"@]
    } else {
        Seq::empty()
    }
}

/// Reads the light of a shape.
pub fn parse_emitter(el: &Element, warnings: &mut Vec<String>) -> (r: MaterialPlan)
    ensures
        r@ == emitter_of(el.node()),
        strings(final(warnings)@) == strings(old(warnings)@) + emitter_warnings(el.node()),
{
    let ghost start = strings(warnings@);
    if !el.is_typ("area") {
        warn3(warnings, "emitter type '", el.typ(), "' treated as area light");
    }
    assert(strings(warnings@) =~= start + emitter_warnings(el.node()));
    MaterialPlan::DiffuseLight { emit: color_else(el.color("radiance"), "1") }
}

/// Numbers that a material gives to images are numbers of images that are in use, and what was in
/// use stays in use.
pub open spec fn registry_grows(a: RegistryModel, b: RegistryModel) -> bool {
    &&& a.textures.len() <= b.textures.len()
    &&& a.normal_maps.len() <= b.normal_maps.len()
    &&& b.textures.take(a.textures.len() as int) == a.textures
    &&& b.normal_maps.take(a.normal_maps.len() as int) == a.normal_maps
}

proof fn lemma_texture_grows(n: Node, base: Seq<char>, images: Seq<ImageModel>, reg: RegistryModel)
    ensures
        registry_grows(reg, texture_of(n, base, images, reg).registry),
        texture_of(n, base, images, reg).value matches Some(i) ==> 0 <= i < texture_of(
            n,
            base,
            images,
            reg,
        ).registry.textures.len(),
{
    let b = texture_of(n, base, images, reg).registry;
    assert(b.textures.take(reg.textures.len() as int) =~= reg.textures);
    assert(b.normal_maps.take(reg.normal_maps.len() as int) =~= reg.normal_maps);
}

/// Reading a material only adds images, and whatever number the material has for an image is the
/// number of one that is in use.
pub proof fn materials_use_known_images(
    n: Node,
    base: Seq<char>,
    images: Seq<ImageModel>,
    reg: RegistryModel,
)
    ensures
        ({
            let o = bsdf_of(n, base, images, reg);
            &&& registry_grows(reg, o.registry)
            &&& o.value.1 matches Some(i) ==> 0 <= i < o.registry.normal_maps.len()
            &&& o.value.0 matches MaterialModel::Lambert { texture: Some(i), .. } ==> 0 <= i
                < o.registry.textures.len()
        }),
    decreases n,
{
    let t = typ(n);
    let i = child_index(n.children, "bsdf"@, NameRule::Any);
    assert(reg.textures.take(reg.textures.len() as int) =~= reg.textures);
    assert(reg.normal_maps.take(reg.normal_maps.len() as int) =~= reg.normal_maps);
    if t == "twosided"@ {
        if 0 <= i < n.children.len() {
            materials_use_known_images(n.children[i], base, images, reg);
        }
    } else if t == "normalmap"@ || t == "bumpmap"@ {
        let inner = if 0 <= i < n.children.len() {
            materials_use_known_images(n.children[i], base, images, reg);
            bsdf_of(n.children[i], base, images, reg).registry
        } else {
            reg
        };
        let map = map_of(n, t == "normalmap"@, base, images, inner);
        let b = map.registry;
        assert(b.textures == inner.textures);
        assert(b.normal_maps.take(inner.normal_maps.len() as int) =~= inner.normal_maps);
        assert(b.normal_maps.take(reg.normal_maps.len() as int) =~= inner.normal_maps.take(
            reg.normal_maps.len() as int,
        ));
    } else {
        match child(n, "texture"@, NameRule::Is("reflectance")) {
            Some(c) => lemma_texture_grows(c, base, images, reg),
            None => {},
        }
    }
}

} // verus!
