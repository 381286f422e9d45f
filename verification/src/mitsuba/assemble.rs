//! Putting a scene together, element by element.

use super::dressing::complete_libraries;
use super::gauge::{answers, reads, Gauge, Readings};
use super::lights::{
    black_environment, darkness, environment_of, environment_warnings, light_of, light_warnings,
    medium_of, medium_warnings, parse_delta_emitter, parse_medium, parse_scene_emitter,
    parse_sensor, sensor_of, sensor_warnings, EnvironmentModel, EnvironmentText, Light, LightModel,
    MediumBits, SensorModel, SensorText,
};
use super::materials::{image_models, Image, ImageModel};
use super::props::{warn1, ColorText};
use super::scene::{step_models, SceneOutline, Step, StepModel};
use super::shapes::{parse_shape, shape_of, FilesModel, PlacedModel, Placement, ShapeFiles};
use super::tables::{
    empty_tables, in_step, used_maps, SceneTables, TablesModel,
};
use super::xml::{lemma_node_children, Element, Node};
use crate::obj::{strings, Triple};
use crate::reals::Bits3;
use vstd::prelude::*;

verus! {

/// A scene.
pub struct ScenePlan {
    /// The camera; a default one is used if it is missing.
    pub sensor: Option<SensorText>,
    /// What each shape adds, in the order of the document.
    pub placements: Vec<Placement>,
    /// The lights without extent.
    pub lights: Vec<Light>,
    /// What surrounds the scene.
    pub environment: EnvironmentText,
    pub medium: Option<MediumBits>,
    pub tables: SceneTables,
}

pub struct PlanModel {
    pub sensor: Option<SensorModel>,
    pub placements: Seq<PlacedModel>,
    pub lights: Seq<LightModel>,
    pub environment: EnvironmentModel,
    pub medium: Option<MediumBits>,
    pub tables: TablesModel,
}

impl View for ScenePlan {
    type V = PlanModel;

    open spec fn view(&self) -> PlanModel {
        PlanModel {
            sensor: match self.sensor {
                Some(s) => Some(s@),
                None => None,
            },
            placements: self.placements@.map_values(|p: Placement| p@),
            lights: self.lights@.map_values(|l: Light| l@),
            environment: self.environment@,
            medium: self.medium,
            tables: self.tables@,
        }
    }
}

/// A scene as far as it is put together, and what was warned of.
pub struct Progress {
    pub plan: PlanModel,
    pub warnings: Seq<Seq<char>>,
}

/// A scene that nothing was said of: it holds nothing, and what surrounds it is black.
pub open spec fn empty_plan() -> PlanModel {
    PlanModel {
        sensor: None,
        placements: Seq::empty(),
        lights: Seq::empty(),
        environment: darkness(),
        medium: None,
        tables: empty_tables(),
    }
}

/// What is known from outside: the directory of the scene, the files of each of its children, the
/// images, and the numbers behind its text.
pub struct Surroundings {
    pub base: Seq<char>,
    pub files: Seq<FilesModel>,
    pub images: Seq<ImageModel>,
    pub readings: Readings,
}

/// After one more step. The last camera stays, and so does the last environment that can be had.
pub open spec fn after_step(p: Progress, s: StepModel, c: Seq<Node>, x: Surroundings) -> Progress {
    match s {
        StepModel::Sensor(i) => Progress {
            plan: PlanModel { sensor: Some(sensor_of(c[i], x.readings)), ..p.plan },
            warnings: p.warnings + sensor_warnings(c[i], x.readings),
        },
        StepModel::Shape(i) => {
            let o = shape_of(
                c[i],
                x.readings.length,
                x.base,
                x.files[i],
                x.images,
                p.plan.tables,
                p.warnings,
            );
            Progress {
                plan: PlanModel {
                    placements: p.plan.placements.push(o.placed),
                    tables: o.tables,
                    ..p.plan
                },
                warnings: o.warnings,
            }
        },
        StepModel::Light(i) => Progress {
            plan: match light_of(c[i], x.readings) {
                Some(l) => PlanModel { lights: p.plan.lights.push(l), ..p.plan },
                None => p.plan,
            },
            warnings: p.warnings + light_warnings(c[i], x.readings),
        },
        StepModel::Environment(i) => Progress {
            plan: match environment_of(c[i], x.base, x.images) {
                Some(e) => PlanModel { environment: e, ..p.plan },
                None => p.plan,
            },
            warnings: p.warnings + environment_warnings(c[i], x.base, x.images),
        },
        StepModel::Medium(i) => Progress {
            plan: PlanModel { medium: medium_of(c[i], x.readings), ..p.plan },
            warnings: p.warnings + medium_warnings(c[i], x.readings),
        },
        StepModel::Warning(t) => Progress { warnings: p.warnings.push(t), ..p },
    }
}

/// After these steps; `w` was warned of before.
pub open spec fn after_steps(
    w: Seq<Seq<char>>,
    s: Seq<StepModel>,
    c: Seq<Node>,
    x: Surroundings,
) -> Progress
    decreases s.len(),
{
    if s.len() == 0 {
        Progress { plan: empty_plan(), warnings: w }
    } else {
        after_step(after_steps(w, s.drop_last(), c, x), s.last(), c, x)
    }
}

/// The scene when all steps are done: where no material has a map, the table of maps is empty.
pub open spec fn finished(p: PlanModel) -> PlanModel {
    PlanModel {
        tables: TablesModel { mat_maps: used_maps(p.tables.mat_maps), ..p.tables },
        ..p
    }
}

/// Whether all steps speak of children that there are.
pub open spec fn steps_fit(s: Seq<StepModel>, n: int) -> bool {
    forall|k: int|
        0 <= k < s.len() ==> match #[trigger] s[k] {
            StepModel::Sensor(i) => 0 <= i < n,
            StepModel::Shape(i) => 0 <= i < n,
            StepModel::Light(i) => 0 <= i < n,
            StepModel::Environment(i) => 0 <= i < n,
            StepModel::Medium(i) => 0 <= i < n,
            StepModel::Warning(_) => true,
        }
}

pub open spec fn files_models(v: Seq<ShapeFiles>) -> Seq<FilesModel> {
    v.map_values(|f: ShapeFiles| f@)
}

fn take_step<
    N: Fn(&str) -> u64,
    C: Fn(&ColorText) -> Bits3,
    L: Fn(&Triple) -> u64,
    Q: Fn(u64) -> u64,
    S: Fn(u64) -> String,
>(
    plan: &mut ScenePlan,
    step: &Step,
    root: &Element,
    base_dir: &str,
    files: &Vec<ShapeFiles>,
    images: &Vec<Image>,
    gauge: &Gauge<N, C, L, Q, S>,
    warnings: &mut Vec<String>,
)
    requires
        answers(*gauge),
        in_step(old(plan)@.tables),
        steps_fit(seq![step@], root.children@.len() as int),
        files@.len() == root.children@.len(),
        forall|i: int| 0 <= i < files@.len() ==> complete_libraries(#[trigger] files@[i].libraries@),
    ensures
        in_step(final(plan)@.tables),
        forall|readings: Readings| #[trigger]
            reads(*gauge, readings) ==> after_step(
                Progress { plan: old(plan)@, warnings: strings(old(warnings)@) },
                step@,
                root.node().children,
                Surroundings {
                    base: base_dir@,
                    files: files_models(files@),
                    images: image_models(images@),
                    readings,
                },
            ) == (Progress { plan: final(plan)@, warnings: strings(final(warnings)@) }),
{
    let ghost before = plan@;
    let ghost c = root.node().children;
    proof {
        lemma_node_children(root);
        assert(seq![step@][0] == step@);
    }
    match step {
        Step::Sensor(i) => {
            assert(c[*i as int] == root.children@[*i as int].node());
            plan.sensor = Some(parse_sensor(&root.children[*i], gauge, warnings));
        },
        Step::Shape(i) => {
            assert(c[*i as int] == root.children@[*i as int].node());
            assert(complete_libraries(files@[*i as int].libraries@));
            assert(files_models(files@)[*i as int] == files@[*i as int]@);
            let ghost p0 = plan.placements@;
            let p = parse_shape(
                &root.children[*i],
                &gauge.length,
                base_dir,
                &files[*i],
                images,
                &mut plan.tables,
                warnings,
            );
            plan.placements.push(p);
            assert(plan@.placements =~= before.placements.push(p@));
        },
        Step::Light(i) => {
            assert(c[*i as int] == root.children@[*i as int].node());
            if let Some(l) = parse_delta_emitter(&root.children[*i], gauge, warnings) {
                plan.lights.push(l);
                assert(plan@.lights =~= before.lights.push(l@));
            }
        },
        Step::Environment(i) => {
            assert(c[*i as int] == root.children@[*i as int].node());
            if let Some(e) = parse_scene_emitter(&root.children[*i], base_dir, images, warnings) {
                plan.environment = e;
            }
        },
        Step::Medium(i) => {
            assert(c[*i as int] == root.children@[*i as int].node());
            plan.medium = parse_medium(&root.children[*i], gauge, warnings);
        },
        Step::Warning(t) => {
            warn1(warnings, t.as_str());
        },
    }
}

/// Puts a scene together: `files` holds what there is to know of the files of each child, and
/// `gauge` computes with the numbers. Returns the scene and all warnings, those about the settings
/// first.
pub fn assemble<
    N: Fn(&str) -> u64,
    C: Fn(&ColorText) -> Bits3,
    L: Fn(&Triple) -> u64,
    Q: Fn(u64) -> u64,
    S: Fn(u64) -> String,
>(
    outline: &SceneOutline,
    base_dir: &str,
    files: &Vec<ShapeFiles>,
    images: &Vec<Image>,
    gauge: &Gauge<N, C, L, Q, S>,
) -> (r: (ScenePlan, Vec<String>))
    requires
        answers(*gauge),
        steps_fit(step_models(outline.steps@), outline.root.children@.len() as int),
        files@.len() == outline.root.children@.len(),
        forall|i: int| 0 <= i < files@.len() ==> complete_libraries(#[trigger] files@[i].libraries@),
    ensures
        forall|readings: Readings| #[trigger]
            reads(*gauge, readings) ==> {
                let p = after_steps(
                    strings(outline.warnings@),
                    step_models(outline.steps@),
                    outline.root.node().children,
                    Surroundings {
                        base: base_dir@,
                        files: files_models(files@),
                        images: image_models(images@),
                        readings,
                    },
                );
                &&& r.0@ == finished(p.plan)
                &&& strings(r.1@) == p.warnings
            },
{
    let mut warnings: Vec<String> = Vec::new();
    let ghost w = strings(outline.warnings@);
    let mut k: usize = 0;
    assert(strings(warnings@) =~= w.take(0));
    while k < outline.warnings.len()
        invariant
            k <= outline.warnings@.len(),
            w == strings(outline.warnings@),
            strings(warnings@) == w.take(k as int),
        decreases outline.warnings@.len() - k,
    {
        warn1(&mut warnings, outline.warnings[k].as_str());
        k += 1;
        assert(strings(warnings@) =~= w.take(k as int));
    }
    assert(w.take(k as int) =~= w);
    let mut plan = ScenePlan {
        sensor: None,
        placements: Vec::new(),
        lights: Vec::new(),
        environment: black_environment(),
        medium: None,
        tables: SceneTables::new(),
    };
    let ghost steps = step_models(outline.steps@);
    let ghost c = outline.root.node().children;
    let ghost (f, im) = (files_models(files@), image_models(images@));
    proof {
        assert(plan@.placements =~= Seq::<PlacedModel>::empty());
        assert(plan@.lights =~= Seq::<LightModel>::empty());
        assert(steps.take(0) =~= Seq::<StepModel>::empty());
    }
    let mut i: usize = 0;
    while i < outline.steps.len()
        invariant
            i <= outline.steps@.len(),
            steps == step_models(outline.steps@),
            c == outline.root.node().children,
            f == files_models(files@),
            im == image_models(images@),
            answers(*gauge),
            steps_fit(steps, outline.root.children@.len() as int),
            files@.len() == outline.root.children@.len(),
            forall|j: int|
                0 <= j < files@.len() ==> complete_libraries(#[trigger] files@[j].libraries@),
            in_step(plan@.tables),
            forall|readings: Readings| #[trigger]
                reads(*gauge, readings) ==> after_steps(
                    w,
                    steps.take(i as int),
                    c,
                    Surroundings { base: base_dir@, files: f, images: im, readings },
                ) == (Progress { plan: plan@, warnings: strings(warnings@) }),
        decreases outline.steps@.len() - i,
    {
        proof {
            assert(steps[i as int] == outline.steps@[i as int]@);
            assert(steps.take(i + 1).drop_last() =~= steps.take(i as int));
            assert(steps.take(i + 1).last() == outline.steps@[i as int]@);
        }
        take_step(
            &mut plan,
            &outline.steps[i],
            &outline.root,
            base_dir,
            files,
            images,
            gauge,
            &mut warnings,
        );
        i += 1;
    }
    assert(steps.take(i as int) =~= steps);
    plan.tables.drop_empty_maps();
    (plan, warnings)
}

} // verus!
