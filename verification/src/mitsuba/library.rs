//! Materials out of a material library.
//!
//! An image is read once, whoever asks for it and however often; that it could not be read is
//! remembered too.

use super::materials::{
    error_of, image_error, image_key, image_models, key_of, load_failed, opt_number, Image,
    ImageModel, MapEntry, MapModel, MapUse, MapUseModel, MaterialModel, MaterialPlan, Registry,
    RegistryModel, Roughness, RoughnessModel, TextureEntry, TextureModel,
};
use super::props::{warn3, warn5, ColorModel, ColorText};
use super::scene::{path_in, resolve_path};
use crate::mtl::{opt_text, MtlMaterial, MtlModel, Rgb};
use crate::obj::{strings, Triple};
use crate::reals::{
    below, between, black, clamp, is_black, less, single, to_single, Bits3, ONE, SINGLE_ONE, ZERO,
};
use crate::text::{copied, same_str};
use crate::texture::Wrap;
use vstd::prelude::*;

verus! {

/// The bits of 0.05: a specular colour that is no brighter does not make a material shiny.
pub const SHINY: u64 = 0x3FA9_9999_9999_999A;

/// An image that was asked for, and its number if it could be read.
pub struct CacheEntry {
    pub path: String,
    /// Whether it is read as heights.
    pub height: bool,
    /// The bits of the strength that it is used with.
    pub strength: u64,
    pub value: Option<usize>,
}

pub struct EntryModel {
    pub path: Seq<char>,
    pub height: bool,
    pub strength: u64,
    pub value: Option<int>,
}

impl View for CacheEntry {
    type V = EntryModel;

    open spec fn view(&self) -> EntryModel {
        EntryModel {
            path: self.path@,
            height: self.height,
            strength: self.strength,
            value: opt_number(self.value),
        }
    }
}

pub open spec fn entries(v: Seq<CacheEntry>) -> Seq<EntryModel> {
    v.map_values(|e: CacheEntry| e@)
}

/// What is remembered of an image, if anything is.
pub open spec fn cached(
    c: Seq<EntryModel>,
    path: Seq<char>,
    height: bool,
    strength: u64,
) -> Option<Option<int>>
    decreases c.len(),
{
    if c.len() == 0 {
        None
    } else if c[0].path == path && c[0].height == height && c[0].strength == strength {
        Some(c[0].value)
    } else {
        cached(c.skip(1), path, height, strength)
    }
}

/// What asking for an image comes to.
pub struct Loaded {
    pub value: Option<int>,
    /// Whether the image is new.
    pub fresh: bool,
    pub cache: Seq<EntryModel>,
    pub warnings: Seq<Seq<char>>,
}

/// Asking for an image: what is remembered, else the next number if the image can be read.
pub open spec fn load(
    c: Seq<EntryModel>,
    path: Seq<char>,
    height: bool,
    strength: u64,
    error: Option<Seq<char>>,
    next: int,
    what: Seq<char>,
) -> Loaded {
    match cached(c, path, height, strength) {
        Some(v) => Loaded { value: v, fresh: false, cache: c, warnings: Seq::empty() },
        None => match error {
            None => Loaded {
                value: Some(next),
                fresh: true,
                cache: c.push(EntryModel { path, height, strength, value: Some(next) }),
                warnings: Seq::empty(),
            },
            Some(e) => Loaded {
                value: None,
                fresh: false,
                cache: c.push(EntryModel { path, height, strength, value: None }),
                warnings: seq![load_failed(what, path, e)],
            },
        },
    }
}

fn find_cached(c: &Vec<CacheEntry>, path: &str, height: bool, strength: u64) -> (r: Option<
    Option<usize>,
>)
    ensures
        match r {
            Some(v) => cached(entries(c@), path@, height, strength) == Some(opt_number(v)),
            None => cached(entries(c@), path@, height, strength) is None,
        },
{
    let ghost all = entries(c@);
    let mut i: usize = 0;
    assert(all.skip(0) =~= all);
    while i < c.len()
        invariant
            i <= c@.len(),
            all == entries(c@),
            cached(all, path@, height, strength) == cached(
                all.skip(i as int),
                path@,
                height,
                strength,
            ),
        decreases c@.len() - i,
    {
        let ghost rest = all.skip(i as int);
        assert(rest[0] == c@[i as int]@);
        if c[i].height == height && c[i].strength == strength && same_str(
            c[i].path.as_str(),
            path,
        ) {
            return Some(c[i].value);
        }
        assert(rest.skip(1) =~= all.skip(i + 1));
        i += 1;
    }
    None
}

fn ask(
    c: &mut Vec<CacheEntry>,
    path: &str,
    height: bool,
    strength: u64,
    error: Option<String>,
    next: usize,
    what: &str,
    warnings: &mut Vec<String>,
) -> (r: (Option<usize>, bool))
    ensures
        ({
            let l = load(
                entries(old(c)@),
                path@,
                height,
                strength,
                opt_text(error),
                next as int,
                what@,
            );
            &&& opt_number(r.0) == l.value
            &&& r.1 == l.fresh
            &&& entries(final(c)@) == l.cache
            &&& strings(final(warnings)@) == strings(old(warnings)@) + l.warnings
        }),
{
    let ghost start = strings(warnings@);
    let ghost before = c@;
    if let Some(v) = find_cached(c, path, height, strength) {
        assert(start + Seq::<Seq<char>>::empty() =~= start);
        return (v, false);
    }
    match error {
        None => {
            let e = CacheEntry { path: copied(path), height, strength, value: Some(next) };
            let ghost m = e@;
            c.push(e);
            assert(entries(c@) =~= entries(before).push(m));
            assert(start + Seq::<Seq<char>>::empty() =~= start);
            (Some(next), true)
        },
        Some(e) => {
            warn5(warnings, what, path, "': ", e.as_str(), "; ignored");
            assert(strings(warnings@) =~= start + seq![load_failed(what@, path@, e@)]);
            let e = CacheEntry { path: copied(path), height, strength, value: None };
            let ghost m = e@;
            c.push(e);
            assert(entries(c@) =~= entries(before).push(m));
            (None, false)
        },
    }
}

/// What is remembered while a scene is read.
pub struct LibraryState {
    pub textures: Vec<CacheEntry>,
    pub maps: Vec<CacheEntry>,
    pub masks: Vec<CacheEntry>,
    /// The masks in use, numbered in the order in which they were first asked for.
    pub mask_files: Vec<String>,
    /// Whether it was said already that materials cannot be translucent.
    pub warned_alpha: bool,
}

pub struct LibraryModel {
    pub textures: Seq<EntryModel>,
    pub maps: Seq<EntryModel>,
    pub masks: Seq<EntryModel>,
    pub mask_files: Seq<Seq<char>>,
    pub warned_alpha: bool,
}

impl View for LibraryState {
    type V = LibraryModel;

    open spec fn view(&self) -> LibraryModel {
        LibraryModel {
            textures: entries(self.textures@),
            maps: entries(self.maps@),
            masks: entries(self.masks@),
            mask_files: strings(self.mask_files@),
            warned_alpha: self.warned_alpha,
        }
    }
}

pub open spec fn empty_library() -> LibraryModel {
    LibraryModel {
        textures: Seq::empty(),
        maps: Seq::empty(),
        masks: Seq::empty(),
        mask_files: Seq::empty(),
        warned_alpha: false,
    }
}

impl LibraryState {
    /// Nothing is remembered.
    pub fn new() -> (r: Self)
        ensures
            r@ == empty_library(),
    {
        let r = LibraryState {
            textures: Vec::new(),
            maps: Vec::new(),
            masks: Vec::new(),
            mask_files: Vec::new(),
            warned_alpha: false,
        };
        assert(r@.textures =~= Seq::<EntryModel>::empty());
        assert(r@.maps =~= Seq::<EntryModel>::empty());
        assert(r@.masks =~= Seq::<EntryModel>::empty());
        assert(r@.mask_files =~= Seq::<Seq<char>>::empty());
        r
    }
}

/// The numbers of a material that decide what it becomes, as bits.
#[derive(Clone, Copy, Debug, PartialEq, Eq)]
pub struct MtlNumbers {
    /// Emitted colour.
    pub ke: Bits3,
    /// Opacity.
    pub d: u64,
    /// Specular exponent.
    pub ns: u64,
    /// Luminance of the specular colour.
    pub specular: u64,
    /// The strength that a height map is used with.
    pub strength: u64,
}

/// What a material of a library comes to.
pub struct MtlOutcome {
    pub material: MaterialModel,
    /// The mask that cuts holes into it.
    pub mask: Option<int>,
    /// How opaque the mask leaves it at most.
    pub opacity: u32,
    /// The map that bends its normals.
    pub map: Option<int>,
    pub registry: RegistryModel,
    pub library: LibraryModel,
    pub warnings: Seq<Seq<char>>,
}

/// What was read so far: the images in use, what is remembered, and the warnings.
pub struct Reading {
    pub registry: RegistryModel,
    pub library: LibraryModel,
    pub warnings: Seq<Seq<char>>,
}

pub open spec fn unsupported_in(m: MtlModel, k: MtlNumbers) -> Seq<Seq<char>> {
    if m.map_ka is None && black(k.ke) {
        Seq::empty()
    } else {
        seq![
            "mtl material '"@ + m.name + "': unsupported "@ + (if m.map_ka is None {
                "Ke (emission)"@
            } else if black(k.ke) {
                "map_Ka"@
            } else {
                "map_Ka, Ke (emission)"@
            }) + " ignored"@,
        ]
    }
}

/// The mask of a material. One that is translucent without a mask is opaque instead, which is
/// said once.
pub open spec fn mask_of(
    m: MtlModel,
    k: MtlNumbers,
    dir: Seq<char>,
    images: Seq<ImageModel>,
    r: Reading,
) -> (Option<int>, Reading) {
    match m.map_d {
        Some(p) => {
            let path = path_in(dir, p);
            let l = load(
                r.library.masks,
                image_key(images, path),
                false,
                ONE,
                image_error(images, path),
                r.library.mask_files.len() as int,
                "failed to load alpha mask '"@,
            );
            (
                l.value,
                Reading {
                    library: LibraryModel {
                        masks: l.cache,
                        mask_files: if l.fresh {
                            r.library.mask_files.push(image_key(images, path))
                        } else {
                            r.library.mask_files
                        },
                        ..r.library
                    },
                    warnings: r.warnings + l.warnings,
                    ..r
                },
            )
        },
        None => if below(k.d, ONE) && !r.library.warned_alpha {
            (
                None,
                Reading {
                    library: LibraryModel { warned_alpha: true, ..r.library },
                    warnings: r.warnings.push(
                        "mtl material '"@ + m.name
                            + "': constant d < 1 without map_d ignored (translucency is not supported; further materials are not reported)"@,
                    ),
                    ..r
                },
            )
        } else {
            (None, r)
        },
    }
}

/// A map of a material.
pub open spec fn map_at(
    rel: Seq<char>,
    height: bool,
    strength: u64,
    used: MapUseModel,
    dir: Seq<char>,
    images: Seq<ImageModel>,
    r: Reading,
) -> (Option<int>, Reading) {
    let path = path_in(dir, rel);
    let l = load(
        r.library.maps,
        image_key(images, path),
        height,
        strength,
        image_error(images, path),
        r.registry.normal_maps.len() as int,
        "failed to load normal/bump map '"@,
    );
    (
        l.value,
        Reading {
            registry: if l.fresh {
                RegistryModel {
                    normal_maps: r.registry.normal_maps.push(
                        MapModel { path: image_key(images, path), wrap: Wrap::Repeat, used },
                    ),
                    ..r.registry
                }
            } else {
                r.registry
            },
            library: LibraryModel { maps: l.cache, ..r.library },
            warnings: r.warnings + l.warnings,
        },
    )
}

/// The map of a material: normals count for more than heights.
pub open spec fn bending_of(
    m: MtlModel,
    k: MtlNumbers,
    dir: Seq<char>,
    images: Seq<ImageModel>,
    r: Reading,
) -> (Option<int>, Reading) {
    let s = if m.norm is Some && m.map_bump is Some {
        Reading {
            warnings: r.warnings.push(
                "mtl material '"@ + m.name + "': both norm and map_bump given; using norm"@,
            ),
            ..r
        }
    } else {
        r
    };
    match (m.norm, m.map_bump) {
        (Some(p), _) => map_at(p, false, ONE, MapUseModel::Tangent, dir, images, s),
        (None, Some(p)) => map_at(
            p,
            true,
            k.strength,
            MapUseModel::LibraryHeight(m.bm),
            dir,
            images,
            s,
        ),
        (None, None) => (None, s),
    }
}

/// What a material is made of: a texture counts for more than gloss, gloss for more than a plain
/// colour.
pub open spec fn base_of(
    m: MtlModel,
    k: MtlNumbers,
    dir: Seq<char>,
    images: Seq<ImageModel>,
    r: Reading,
) -> (MaterialModel, Reading) {
    let kd = ColorModel { srgb: false, v: m.kd };
    match m.map_kd {
        Some(p) => {
            let path = path_in(dir, p);
            let l = load(
                r.library.textures,
                image_key(images, path),
                false,
                ONE,
                image_error(images, path),
                r.registry.textures.len() as int,
                "failed to load texture '"@,
            );
            (
                MaterialModel::Lambert { albedo: kd, texture: l.value },
                Reading {
                    registry: if l.fresh {
                        RegistryModel {
                            textures: r.registry.textures.push(
                                TextureModel {
                                    path: image_key(images, path),
                                    srgb: true,
                                    wrap: Wrap::Repeat,
                                },
                            ),
                            ..r.registry
                        }
                    } else {
                        r.registry
                    },
                    library: LibraryModel { textures: l.cache, ..r.library },
                    warnings: r.warnings + l.warnings,
                },
            )
        },
        None => (
            if below(SHINY, k.specular) && below(ONE, k.ns) {
                MaterialModel::Ggx {
                    albedo: ColorModel { srgb: false, v: m.ks },
                    roughness: RoughnessModel::Exponent(m.ns),
                }
            } else {
                MaterialModel::Lambert { albedo: kd, texture: None }
            },
            r,
        ),
    }
}

/// How opaque a mask leaves a material at most: as opaque as the material is, in single precision.
pub open spec fn mask_opacity(mask: Option<int>, k: MtlNumbers) -> u32 {
    if mask is Some {
        single(between(ZERO, k.d, ONE))
    } else {
        SINGLE_ONE
    }
}

/// What a material of a library comes to: first its mask, then its map, then what it is made of.
pub open spec fn material_of(
    m: MtlModel,
    k: MtlNumbers,
    dir: Seq<char>,
    images: Seq<ImageModel>,
    reg: RegistryModel,
    lib: LibraryModel,
) -> MtlOutcome {
    let r0 = Reading { registry: reg, library: lib, warnings: unsupported_in(m, k) };
    let (mask, r1) = mask_of(m, k, dir, images, r0);
    let (map, r2) = bending_of(m, k, dir, images, r1);
    let (material, r3) = base_of(m, k, dir, images, r2);
    MtlOutcome {
        material,
        mask,
        opacity: mask_opacity(mask, k),
        map,
        registry: r3.registry,
        library: r3.library,
        warnings: r3.warnings,
    }
}

/// A material of a library, with its mask and its map.
pub struct MtlPlan {
    pub material: MaterialPlan,
    pub mask: Option<usize>,
    /// How opaque the mask leaves it at most, as bits of single precision.
    pub opacity: u32,
    pub map: Option<usize>,
}

fn linear(c: &Rgb) -> (r: ColorText)
    ensures
        r@ == (ColorModel { srgb: false, v: c@ }),
{
    ColorText {
        srgb: false,
        v: Triple { x: copied(c.r.as_str()), y: copied(c.g.as_str()), z: copied(c.b.as_str()) },
    }
}

/// Reads the texture of a material.
pub fn load_mtl_texture(
    dir: &str,
    rel: &str,
    images: &Vec<Image>,
    reg: &mut Registry,
    lib: &mut LibraryState,
    warnings: &mut Vec<String>,
) -> (r: Option<usize>)
    ensures
        ({
            let path = path_in(dir@, rel@);
            let l = load(
                old(lib)@.textures,
                image_key(image_models(images@), path),
                false,
                ONE,
                image_error(image_models(images@), path),
                old(reg)@.textures.len() as int,
                "failed to load texture '"@,
            );
            &&& opt_number(r) == l.value
            &&& final(lib)@ == (LibraryModel { textures: l.cache, ..old(lib)@ })
            &&& final(reg)@ == (if l.fresh {
                RegistryModel {
                    textures: old(reg)@.textures.push(
                        TextureModel {
                            path: image_key(image_models(images@), path),
                            srgb: true,
                            wrap: Wrap::Repeat,
                        },
                    ),
                    ..old(reg)@
                }
            } else {
                old(reg)@
            })
            &&& strings(final(warnings)@) == strings(old(warnings)@) + l.warnings
        }),
{
    let path = resolve_path(dir, rel);
    let key = key_of(images, path.as_str());
    let error = error_of(images, path.as_str());
    let next: usize = reg.textures.len();
    let (v, fresh) = ask(
        &mut lib.textures,
        key.as_str(),
        false,
        ONE,
        error,
        next,
        "failed to load texture '",
        warnings,
    );
    if fresh {
        reg.add_texture(TextureEntry { path: key, srgb: true, wrap: Wrap::Repeat });
    }
    v
}

/// Reads a map of a material.
pub fn load_mtl_map(
    dir: &str,
    rel: &str,
    height: bool,
    strength: u64,
    used: MapUse,
    images: &Vec<Image>,
    reg: &mut Registry,
    lib: &mut LibraryState,
    warnings: &mut Vec<String>,
) -> (r: Option<usize>)
    ensures
        ({
            let (v, s) = map_at(
                rel@,
                height,
                strength,
                used@,
                dir@,
                image_models(images@),
                Reading {
                    registry: old(reg)@,
                    library: old(lib)@,
                    warnings: strings(old(warnings)@),
                },
            );
            &&& opt_number(r) == v
            &&& final(lib)@ == s.library
            &&& final(reg)@ == s.registry
            &&& strings(final(warnings)@) == s.warnings
        }),
{
    let path = resolve_path(dir, rel);
    let key = key_of(images, path.as_str());
    let error = error_of(images, path.as_str());
    let next: usize = reg.normal_maps.len();
    let (v, fresh) = ask(
        &mut lib.maps,
        key.as_str(),
        height,
        strength,
        error,
        next,
        "failed to load normal/bump map '",
        warnings,
    );
    if fresh {
        reg.add_map(MapEntry { path: key, wrap: Wrap::Repeat, used });
    }
    v
}

/// Reads the mask of a material.
pub fn load_mtl_mask(
    dir: &str,
    rel: &str,
    images: &Vec<Image>,
    lib: &mut LibraryState,
    warnings: &mut Vec<String>,
) -> (r: Option<usize>)
    ensures
        ({
            let path = path_in(dir@, rel@);
            let l = load(
                old(lib)@.masks,
                image_key(image_models(images@), path),
                false,
                ONE,
                image_error(image_models(images@), path),
                old(lib)@.mask_files.len() as int,
                "failed to load alpha mask '"@,
            );
            &&& opt_number(r) == l.value
            &&& final(lib)@ == (LibraryModel {
                masks: l.cache,
                mask_files: if l.fresh {
                    old(lib)@.mask_files.push(image_key(image_models(images@), path))
                } else {
                    old(lib)@.mask_files
                },
                ..old(lib)@
            })
            &&& strings(final(warnings)@) == strings(old(warnings)@) + l.warnings
        }),
{
    let path = resolve_path(dir, rel);
    let key = key_of(images, path.as_str());
    let error = error_of(images, path.as_str());
    let next: usize = lib.mask_files.len();
    let (v, fresh) = ask(
        &mut lib.masks,
        key.as_str(),
        false,
        ONE,
        error,
        next,
        "failed to load alpha mask '",
        warnings,
    );
    if fresh {
        let ghost before = lib.mask_files@;
        let ghost k = key@;
        lib.mask_files.push(key);
        assert(strings(lib.mask_files@) =~= strings(before).push(k));
    }
    v
}

/// What was read so far.
pub open spec fn reading(reg: Registry, lib: LibraryState, warnings: Vec<String>) -> Reading {
    Reading { registry: reg@, library: lib@, warnings: strings(warnings@) }
}

fn choose_mask(
    m: &MtlMaterial,
    numbers: MtlNumbers,
    dir: &str,
    images: &Vec<Image>,
    lib: &mut LibraryState,
    warnings: &mut Vec<String>,
    Ghost(r0): Ghost<Reading>,
) -> (r: Option<usize>)
    requires
        r0.library == old(lib)@,
        r0.warnings == strings(old(warnings)@),
    ensures
        ({
            let (v, s) = mask_of(m@, numbers, dir@, image_models(images@), r0);
            &&& opt_number(r) == v
            &&& s.registry == r0.registry
            &&& s.library == final(lib)@
            &&& s.warnings == strings(final(warnings)@)
        }),
{
    match &m.map_d {
        Some(p) => load_mtl_mask(dir, p.as_str(), images, lib, warnings),
        None => {
            if less(numbers.d, ONE) && !lib.warned_alpha {
                lib.warned_alpha = true;
                warn3(
                    warnings,
                    "mtl material '",
                    m.name.as_str(),
                    "': constant d < 1 without map_d ignored (translucency is not supported; further materials are not reported)",
                );
            }
            None
        },
    }
}

fn choose_map(
    m: &MtlMaterial,
    numbers: MtlNumbers,
    dir: &str,
    images: &Vec<Image>,
    reg: &mut Registry,
    lib: &mut LibraryState,
    warnings: &mut Vec<String>,
) -> (r: Option<usize>)
    ensures
        ({
            let (v, s) = bending_of(
                m@,
                numbers,
                dir@,
                image_models(images@),
                reading(*old(reg), *old(lib), *old(warnings)),
            );
            &&& opt_number(r) == v
            &&& s == reading(*final(reg), *final(lib), *final(warnings))
        }),
{
    if m.norm.is_some() && m.map_bump.is_some() {
        warn3(
            warnings,
            "mtl material '",
            m.name.as_str(),
            "': both norm and map_bump given; using norm",
        );
    }
    match (&m.norm, &m.map_bump) {
        (Some(p), _) => load_mtl_map(
            dir,
            p.as_str(),
            false,
            ONE,
            MapUse::Tangent,
            images,
            reg,
            lib,
            warnings,
        ),
        (None, Some(p)) => load_mtl_map(
            dir,
            p.as_str(),
            true,
            numbers.strength,
            MapUse::LibraryHeight(copied(m.bm.as_str())),
            images,
            reg,
            lib,
            warnings,
        ),
        (None, None) => None,
    }
}

fn choose_base(
    m: &MtlMaterial,
    numbers: MtlNumbers,
    dir: &str,
    images: &Vec<Image>,
    reg: &mut Registry,
    lib: &mut LibraryState,
    warnings: &mut Vec<String>,
) -> (r: MaterialPlan)
    ensures
        ({
            let (v, s) = base_of(
                m@,
                numbers,
                dir@,
                image_models(images@),
                reading(*old(reg), *old(lib), *old(warnings)),
            );
            &&& r@ == v
            &&& s == reading(*final(reg), *final(lib), *final(warnings))
        }),
{
    match &m.map_kd {
        Some(p) => {
            let texture = load_mtl_texture(dir, p.as_str(), images, reg, lib, warnings);
            MaterialPlan::Lambert { albedo: linear(&m.kd), texture }
        },
        None => if less(SHINY, numbers.specular) && less(ONE, numbers.ns) {
            MaterialPlan::Ggx {
                albedo: linear(&m.ks),
                roughness: Roughness::Exponent(copied(m.ns.as_str())),
            }
        } else {
            MaterialPlan::Lambert { albedo: linear(&m.kd), texture: None }
        },
    }
}

/// Warnings that are there already stay in front, whatever a step adds.
pub open spec fn after(w: Seq<Seq<char>>, r: Reading) -> Reading {
    Reading { warnings: w + r.warnings, ..r }
}

proof fn lemma_steps_add(
    m: MtlModel,
    k: MtlNumbers,
    dir: Seq<char>,
    images: Seq<ImageModel>,
    w: Seq<Seq<char>>,
    r: Reading,
)
    ensures
        mask_of(m, k, dir, images, after(w, r)).0 == mask_of(m, k, dir, images, r).0,
        mask_of(m, k, dir, images, after(w, r)).1 == after(w, mask_of(m, k, dir, images, r).1),
        bending_of(m, k, dir, images, after(w, r)).0 == bending_of(m, k, dir, images, r).0,
        bending_of(m, k, dir, images, after(w, r)).1 == after(
            w,
            bending_of(m, k, dir, images, r).1,
        ),
        base_of(m, k, dir, images, after(w, r)).0 == base_of(m, k, dir, images, r).0,
        base_of(m, k, dir, images, after(w, r)).1 == after(w, base_of(m, k, dir, images, r).1),
{
    assert(mask_of(m, k, dir, images, after(w, r)).1.warnings =~= w + mask_of(
        m,
        k,
        dir,
        images,
        r,
    ).1.warnings);
    assert(bending_of(m, k, dir, images, after(w, r)).1.warnings =~= w + bending_of(
        m,
        k,
        dir,
        images,
        r,
    ).1.warnings);
    assert(base_of(m, k, dir, images, after(w, r)).1.warnings =~= w + base_of(
        m,
        k,
        dir,
        images,
        r,
    ).1.warnings);
}

/// Turns a material of a library into one that can be rendered.
pub fn mtl_to_material(
    m: &MtlMaterial,
    numbers: MtlNumbers,
    dir: &str,
    images: &Vec<Image>,
    reg: &mut Registry,
    lib: &mut LibraryState,
    warnings: &mut Vec<String>,
) -> (r: MtlPlan)
    ensures
        ({
            let o = material_of(
                m@,
                numbers,
                dir@,
                image_models(images@),
                old(reg)@,
                old(lib)@,
            );
            &&& r.material@ == o.material
            &&& opt_number(r.mask) == o.mask
            &&& r.opacity == o.opacity
            &&& opt_number(r.map) == o.map
            &&& final(reg)@ == o.registry
            &&& final(lib)@ == o.library
            &&& strings(final(warnings)@) == strings(old(warnings)@) + o.warnings
        }),
{
    let ghost start = strings(warnings@);
    let ghost seen = image_models(images@);
    let ghost r0 = Reading { registry: reg@, library: lib@, warnings: unsupported_in(m@, numbers) };
    let dark: bool = is_black(numbers.ke);
    if m.map_ka.is_some() || !dark {
        let what: &str = if m.map_ka.is_none() {
            "Ke (emission)"
        } else if dark {
            "map_Ka"
        } else {
            "map_Ka, Ke (emission)"
        };
        warn5(warnings, "mtl material '", m.name.as_str(), "': unsupported ", what, " ignored");
    }
    proof {
        assert(strings(warnings@) =~= start + r0.warnings);
        let r1 = mask_of(m@, numbers, dir@, seen, r0).1;
        let r2 = bending_of(m@, numbers, dir@, seen, r1).1;
        lemma_steps_add(m@, numbers, dir@, seen, start, r0);
        lemma_steps_add(m@, numbers, dir@, seen, start, r1);
        lemma_steps_add(m@, numbers, dir@, seen, start, r2);
    }
    let mask = choose_mask(m, numbers, dir, images, lib, warnings, Ghost(after(start, r0)));
    let map = choose_map(m, numbers, dir, images, reg, lib, warnings);
    let material = choose_base(m, numbers, dir, images, reg, lib, warnings);
    let opacity: u32 = if mask.is_some() {
        to_single(clamp(ZERO, numbers.d, ONE))
    } else {
        SINGLE_ONE
    };
    MtlPlan { material, mask, opacity, map }
}

/// The path of a map, if there is one.
pub open spec fn map_path_in(dir: Seq<char>, map: Option<Seq<char>>) -> Seq<Seq<char>> {
    match map {
        Some(p) => seq![path_in(dir, p)],
        None => Seq::empty(),
    }
}

/// The images that a material of a library in `dir` may ask for.
pub open spec fn maps_of(m: MtlModel, dir: Seq<char>) -> Seq<Seq<char>> {
    map_path_in(dir, m.map_kd) + map_path_in(dir, m.map_d) + map_path_in(dir, m.map_bump)
        + map_path_in(dir, m.norm)
}

fn push_map(out: &mut Vec<String>, dir: &str, map: &Option<String>)
    ensures
        strings(final(out)@) == strings(old(out)@) + map_path_in(dir@, opt_text(*map)),
{
    let ghost before = out@;
    if let Some(p) = map {
        let path = resolve_path(dir, p.as_str());
        out.push(path);
        assert(strings(out@) =~= strings(before) + seq![path@]);
    }
    assert(strings(out@) =~= strings(before) + map_path_in(dir@, opt_text(*map)));
}

/// The images that a material of a library in `dir` may ask for.
pub fn map_paths(m: &MtlMaterial, dir: &str) -> (r: Vec<String>)
    ensures
        strings(r@) == maps_of(m@, dir@),
{
    let mut out: Vec<String> = Vec::new();
    push_map(&mut out, dir, &m.map_kd);
    push_map(&mut out, dir, &m.map_d);
    push_map(&mut out, dir, &m.map_bump);
    push_map(&mut out, dir, &m.norm);
    assert(strings(out@) =~= maps_of(m@, dir@));
    out
}

/// No other image matters to a material: where two lists of images agree on those that it may ask
/// for, it comes to the same.
pub proof fn other_images_do_not_matter(
    m: MtlModel,
    k: MtlNumbers,
    dir: Seq<char>,
    a: Seq<ImageModel>,
    b: Seq<ImageModel>,
    reg: RegistryModel,
    lib: LibraryModel,
)
    requires
        forall|p: Seq<char>| #[trigger]
            maps_of(m, dir).contains(p) ==> image_error(a, p) == image_error(b, p) && image_key(a, p)
                == image_key(b, p),
    ensures
        material_of(m, k, dir, a, reg, lib) == material_of(m, k, dir, b, reg, lib),
{
    let all = maps_of(m, dir);
    let kd = map_path_in(dir, m.map_kd);
    let d = map_path_in(dir, m.map_d);
    let bump = map_path_in(dir, m.map_bump);
    if let Some(p) = m.map_kd {
        assert(all[0] == path_in(dir, p));
        assert(all.contains(path_in(dir, p)));
    }
    if let Some(p) = m.map_d {
        assert(all[kd.len() as int] == path_in(dir, p));
        assert(all.contains(path_in(dir, p)));
    }
    if let Some(p) = m.map_bump {
        assert(all[(kd.len() + d.len()) as int] == path_in(dir, p));
        assert(all.contains(path_in(dir, p)));
    }
    if let Some(p) = m.norm {
        assert(all[(kd.len() + d.len() + bump.len()) as int] == path_in(dir, p));
        assert(all.contains(path_in(dir, p)));
    }
}

/// That translucency is not supported is said once: a translucent material without a mask leaves
/// it said, nothing is said again after that, and no material makes it unsaid.
pub proof fn translucency_is_reported_once(
    m: MtlModel,
    k: MtlNumbers,
    dir: Seq<char>,
    images: Seq<ImageModel>,
    r: Reading,
)
    ensures
        m.map_d is None && below(k.d, ONE) ==> mask_of(m, k, dir, images, r).1.library.warned_alpha,
        m.map_d is None && r.library.warned_alpha ==> mask_of(m, k, dir, images, r) == (
            None::<int>,
            r,
        ),
        r.library.warned_alpha ==> material_of(
            m,
            k,
            dir,
            images,
            r.registry,
            r.library,
        ).library.warned_alpha,
{
}

/// What is remembered of an image stays the same, and asking for it again changes nothing.
pub proof fn asking_twice_changes_nothing(
    c: Seq<EntryModel>,
    path: Seq<char>,
    height: bool,
    strength: u64,
    error: Option<Seq<char>>,
    next: int,
    what: Seq<char>,
    error2: Option<Seq<char>>,
    next2: int,
)
    ensures
        ({
            let first = load(c, path, height, strength, error, next, what);
            let again = load(first.cache, path, height, strength, error2, next2, what);
            &&& again.value == first.value
            &&& again.cache == first.cache
            &&& !again.fresh
            &&& again.warnings.len() == 0
        }),
{
    let first = load(c, path, height, strength, error, next, what);
    if cached(c, path, height, strength) is None {
        lemma_cached_last(c, first.cache.last());
        assert(first.cache =~= c.push(first.cache.last()));
    }
}

proof fn lemma_cached_last(c: Seq<EntryModel>, e: EntryModel)
    requires
        cached(c, e.path, e.height, e.strength) is None,
    ensures
        cached(c.push(e), e.path, e.height, e.strength) == Some(e.value),
    decreases c.len(),
{
    let p = c.push(e);
    if c.len() > 0 {
        lemma_cached_last(c.skip(1), e);
        assert(p.skip(1) =~= c.skip(1).push(e));
    }
}

/// Asking for one image does not change what is remembered of another.
pub proof fn images_are_told_apart(
    c: Seq<EntryModel>,
    path: Seq<char>,
    height: bool,
    strength: u64,
    error: Option<Seq<char>>,
    next: int,
    what: Seq<char>,
    path2: Seq<char>,
    height2: bool,
    strength2: u64,
)
    requires
        path != path2 || height != height2 || strength != strength2,
    ensures
        cached(
            load(c, path, height, strength, error, next, what).cache,
            path2,
            height2,
            strength2,
        ) == cached(c, path2, height2, strength2),
{
    let l = load(c, path, height, strength, error, next, what);
    if cached(c, path, height, strength) is None {
        lemma_cached_other(c, l.cache.last(), path2, height2, strength2);
        assert(l.cache =~= c.push(l.cache.last()));
    }
}

proof fn lemma_cached_other(c: Seq<EntryModel>, e: EntryModel, path: Seq<char>, height: bool, strength: u64)
    requires
        e.path != path || e.height != height || e.strength != strength,
    ensures
        cached(c.push(e), path, height, strength) == cached(c, path, height, strength),
    decreases c.len(),
{
    let p = c.push(e);
    if c.len() > 0 {
        lemma_cached_other(c.skip(1), e, path, height, strength);
        assert(p.skip(1) =~= c.skip(1).push(e));
    } else {
        reveal_with_fuel(cached, 2);
    }
}

} // verus!
