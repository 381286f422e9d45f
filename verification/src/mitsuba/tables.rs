//! What a scene is made of, as it is collected: materials, the maps that bend their normals,
//! images, and meshes.

use super::library::{empty_library, LibraryModel, LibraryState};
use super::materials::{opt_number, MaterialModel, MaterialPlan, Registry, RegistryModel};
use crate::mtl::opt_text;
use crate::text::same_str;
use vstd::prelude::*;

verus! {

/// Where a mesh comes from.
pub enum MeshEntry {
    /// A square, with the number of its material.
    Rectangle(usize),
    Cube(usize),
    Disk(usize),
    /// A file.
    Obj {
        path: String,
        /// The file with the positions when the shutter closes.
        end: Option<String>,
        /// Whether its normals are dropped.
        flat: bool,
        material: usize,
    },
    /// A file whose triangles have the materials that it names.
    Dressed {
        path: String,
        flat: bool,
        /// The number of the first of these materials.
        base: usize,
        /// The masks that cut holes into it.
        masks: Vec<usize>,
        /// For each material zero, or one more than the place of its mask among `masks`.
        slots: Vec<usize>,
        /// How opaque each material is left by its mask at most, as bits of single precision.
        opacities: Vec<u32>,
    },
}

pub enum MeshModel {
    Rectangle(int),
    Cube(int),
    Disk(int),
    Obj { path: Seq<char>, end: Option<Seq<char>>, flat: bool, material: int },
    Dressed {
        path: Seq<char>,
        flat: bool,
        base: int,
        masks: Seq<int>,
        slots: Seq<int>,
        opacities: Seq<u32>,
    },
}

pub open spec fn numbers(v: Seq<usize>) -> Seq<int> {
    v.map_values(|x: usize| x as int)
}

impl View for MeshEntry {
    type V = MeshModel;

    open spec fn view(&self) -> MeshModel {
        match self {
            MeshEntry::Rectangle(m) => MeshModel::Rectangle(*m as int),
            MeshEntry::Cube(m) => MeshModel::Cube(*m as int),
            MeshEntry::Disk(m) => MeshModel::Disk(*m as int),
            MeshEntry::Obj { path, end, flat, material } => MeshModel::Obj {
                path: path@,
                end: opt_text(*end),
                flat: *flat,
                material: *material as int,
            },
            MeshEntry::Dressed { path, flat, base, masks, slots, opacities } => MeshModel::Dressed {
                path: path@,
                flat: *flat,
                base: *base as int,
                masks: numbers(masks@),
                slots: numbers(slots@),
                opacities: opacities@,
            },
        }
    }
}

/// A file that is in use as a mesh already: what makes two meshes the same, and its number.
pub struct ObjEntry {
    /// The path that the file really has.
    pub key: String,
    /// The path that the file with the positions at the end really has.
    pub end: Option<String>,
    pub flat: bool,
    pub mesh: usize,
}

pub struct ObjEntryModel {
    pub key: Seq<char>,
    pub end: Option<Seq<char>>,
    pub flat: bool,
    pub mesh: int,
}

impl View for ObjEntry {
    type V = ObjEntryModel;

    open spec fn view(&self) -> ObjEntryModel {
        ObjEntryModel {
            key: self.key@,
            end: opt_text(self.end),
            flat: self.flat,
            mesh: self.mesh as int,
        }
    }
}

/// The mesh that a file is in use as, if it is.
pub open spec fn mesh_for(
    o: Seq<ObjEntryModel>,
    key: Seq<char>,
    end: Option<Seq<char>>,
    flat: bool,
) -> Option<int>
    decreases o.len(),
{
    if o.len() == 0 {
        None
    } else if o[0].key == key && o[0].end == end && o[0].flat == flat {
        Some(o[0].mesh)
    } else {
        mesh_for(o.skip(1), key, end, flat)
    }
}

/// What a scene is made of.
pub struct SceneTables {
    pub mats: Vec<MaterialPlan>,
    /// For each material the map that bends its normals.
    pub mat_maps: Vec<Option<usize>>,
    pub registry: Registry,
    pub library: LibraryState,
    pub meshes: Vec<MeshEntry>,
    pub objs: Vec<ObjEntry>,
}

pub struct TablesModel {
    pub mats: Seq<MaterialModel>,
    pub mat_maps: Seq<Option<int>>,
    pub registry: RegistryModel,
    pub library: LibraryModel,
    pub meshes: Seq<MeshModel>,
    pub objs: Seq<ObjEntryModel>,
}

impl View for SceneTables {
    type V = TablesModel;

    open spec fn view(&self) -> TablesModel {
        TablesModel {
            mats: self.mats@.map_values(|m: MaterialPlan| m@),
            mat_maps: self.mat_maps@.map_values(|m: Option<usize>| opt_number(m)),
            registry: self.registry@,
            library: self.library@,
            meshes: self.meshes@.map_values(|m: MeshEntry| m@),
            objs: self.objs@.map_values(|o: ObjEntry| o@),
        }
    }
}

pub open spec fn empty_tables() -> TablesModel {
    TablesModel {
        mats: Seq::empty(),
        mat_maps: Seq::empty(),
        registry: RegistryModel { textures: Seq::empty(), normal_maps: Seq::empty() },
        library: empty_library(),
        meshes: Seq::empty(),
        objs: Seq::empty(),
    }
}

/// With one more material.
pub open spec fn with_material(t: TablesModel, mat: MaterialModel, map: Option<int>) -> TablesModel {
    TablesModel { mats: t.mats.push(mat), mat_maps: t.mat_maps.push(map), ..t }
}

/// With one more mesh.
pub open spec fn with_mesh(t: TablesModel, m: MeshModel) -> TablesModel {
    TablesModel { meshes: t.meshes.push(m), ..t }
}

/// With one more file in use.
pub open spec fn with_obj(t: TablesModel, o: ObjEntryModel) -> TablesModel {
    TablesModel { objs: t.objs.push(o), ..t }
}

/// Whether every material has an entry among the maps.
pub open spec fn in_step(t: TablesModel) -> bool {
    t.mats.len() == t.mat_maps.len()
}

/// Whether no material has a map.
pub open spec fn no_maps(m: Seq<Option<int>>) -> bool {
    forall|i: int| 0 <= i < m.len() ==> (#[trigger] m[i]) is None
}

/// The maps as they are used in the end: where no material has one, the table is empty.
pub open spec fn used_maps(m: Seq<Option<int>>) -> Seq<Option<int>> {
    if no_maps(m) {
        Seq::empty()
    } else {
        m
    }
}

impl SceneTables {
    /// Nothing yet.
    pub fn new() -> (r: Self)
        ensures
            r@ == empty_tables(),
    {
        let r = SceneTables {
            mats: Vec::new(),
            mat_maps: Vec::new(),
            registry: Registry::new(),
            library: LibraryState::new(),
            meshes: Vec::new(),
            objs: Vec::new(),
        };
        assert(r@.mats =~= Seq::<MaterialModel>::empty());
        assert(r@.mat_maps =~= Seq::<Option<int>>::empty());
        assert(r@.meshes =~= Seq::<MeshModel>::empty());
        assert(r@.objs =~= Seq::<ObjEntryModel>::empty());
        r
    }

    /// Adds a material with its map, and returns its number.
    pub fn push_material(&mut self, mat: MaterialPlan, map: Option<usize>) -> (id: usize)
        requires
            in_step(old(self)@),
        ensures
            id == old(self)@.mats.len(),
            final(self)@ == with_material(old(self)@, mat@, opt_number(map)),
            in_step(final(self)@),
    {
        let id: usize = self.mats.len();
        let ghost before = self@;
        self.mats.push(mat);
        self.mat_maps.push(map);
        assert(self@.mats =~= before.mats.push(mat@));
        assert(self@.mat_maps =~= before.mat_maps.push(opt_number(map)));
        id
    }

    /// Adds a mesh, and returns its number.
    pub fn push_mesh(&mut self, mesh: MeshEntry) -> (id: usize)
        ensures
            id == old(self)@.meshes.len(),
            final(self)@ == with_mesh(old(self)@, mesh@),
    {
        let id: usize = self.meshes.len();
        let ghost before = self@;
        self.meshes.push(mesh);
        assert(self@.meshes =~= before.meshes.push(mesh@));
        id
    }

    /// Remembers that a file is in use.
    pub fn remember_obj(&mut self, o: ObjEntry)
        ensures
            final(self)@ == with_obj(old(self)@, o@),
    {
        let ghost before = self@;
        self.objs.push(o);
        assert(self@.objs =~= before.objs.push(o@));
    }

    /// The mesh that a file is in use as, if it is.
    pub fn find_obj(&self, key: &str, end: Option<&str>, flat: bool) -> (r: Option<usize>)
        ensures
            opt_number(r) == mesh_for(self@.objs, key@, super::props::str_text(end), flat),
    {
        let ghost all = self@.objs;
        let ghost e = super::props::str_text(end);
        let mut i: usize = 0;
        assert(all.skip(0) =~= all);
        while i < self.objs.len()
            invariant
                i <= self.objs@.len(),
                all == self@.objs,
                e == super::props::str_text(end),
                mesh_for(all, key@, e, flat) == mesh_for(all.skip(i as int), key@, e, flat),
            decreases self.objs@.len() - i,
        {
            let ghost rest = all.skip(i as int);
            assert(rest[0] == self.objs@[i as int]@);
            let o: &ObjEntry = &self.objs[i];
            let same_end: bool = match (&o.end, end) {
                (Some(a), Some(b)) => same_str(a.as_str(), b),
                (None, None) => true,
                _ => false,
            };
            if o.flat == flat && same_end && same_str(o.key.as_str(), key) {
                return Some(o.mesh);
            }
            assert(rest.skip(1) =~= all.skip(i + 1));
            i += 1;
        }
        None
    }

    /// Empties the table of maps where no material has one.
    pub fn drop_empty_maps(&mut self)
        ensures
            final(self)@ == (TablesModel {
                mat_maps: used_maps(old(self)@.mat_maps),
                ..old(self)@
            }),
    {
        let ghost before = self@;
        let mut i: usize = 0;
        let mut any: bool = false;
        while i < self.mat_maps.len()
            invariant
                i <= self.mat_maps@.len(),
                before == self@,
                !any ==> forall|k: int| 0 <= k < i ==> (#[trigger] before.mat_maps[k]) is None,
                any ==> !no_maps(before.mat_maps),
            decreases self.mat_maps@.len() - i,
        {
            assert(before.mat_maps[i as int] == opt_number(self.mat_maps@[i as int]));
            if self.mat_maps[i].is_some() {
                any = true;
            }
            i += 1;
        }
        if !any {
            self.mat_maps.clear();
            assert(self@.mat_maps =~= Seq::<Option<int>>::empty());
        }
    }
}

/// The table of maps is empty, or has an entry for every material.
pub proof fn maps_are_in_step_or_absent(t: TablesModel)
    requires
        in_step(t),
    ensures
        used_maps(t.mat_maps).len() == 0 || used_maps(t.mat_maps).len() == t.mats.len(),
        forall|i: int|
            0 <= i < t.mats.len() && (#[trigger] t.mat_maps[i]) is Some ==> i < used_maps(
                t.mat_maps,
            ).len() && used_maps(t.mat_maps)[i] == t.mat_maps[i],
{
}

/// Two shapes share a mesh only if it is the same file, moving to the same file, with its normals
/// treated alike.
pub proof fn shared_meshes_are_the_same(
    o: Seq<ObjEntryModel>,
    e: ObjEntryModel,
    key: Seq<char>,
    end: Option<Seq<char>>,
    flat: bool,
)
    requires
        mesh_for(o, e.key, e.end, e.flat) is None,
    ensures
        mesh_for(o.push(e), e.key, e.end, e.flat) == Some(e.mesh),
        (key != e.key || end != e.end || flat != e.flat) ==> mesh_for(o.push(e), key, end, flat)
            == mesh_for(o, key, end, flat),
    decreases o.len(),
{
    let p = o.push(e);
    if o.len() > 0 {
        shared_meshes_are_the_same(o.skip(1), e, key, end, flat);
        assert(p.skip(1) =~= o.skip(1).push(e));
    } else {
        reveal_with_fuel(mesh_for, 2);
    }
}

} // verus!
