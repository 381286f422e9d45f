//! A scene as a whole: the render settings that it asks for, the files that it refers to, and what
//! is to be done with each of its elements.

use super::props::{attr, int_of, int_signed_of, signed_text, to_signed, typ, warn3};
use super::xml::{
    document, lemma_node_children, nodes, parse_tree, tree, Element, ErrorModel, Node, SceneError,
};
use crate::config::RenderConfig;
use crate::obj::strings;
use crate::text::{chars_of, copied, same_str, string_of};
use vstd::prelude::*;

verus! {

/// The render settings that a scene file asks for; what it does not mention is missing.
#[derive(Clone, Copy, Debug, PartialEq, Eq, Structural)]
pub struct SceneSettings {
    pub width: Option<usize>,
    pub height: Option<usize>,
    pub spp: Option<usize>,
    pub max_depth: Option<usize>,
    pub rr_depth: Option<usize>,
}

/// `a` if there is one, else `b`.
pub open spec fn or_else(a: Option<usize>, b: usize) -> usize {
    match a {
        Some(x) => x,
        None => b,
    }
}

/// The first of two that is there.
pub open spec fn either(a: Option<usize>, b: Option<usize>) -> Option<usize> {
    match a {
        Some(_) => a,
        None => b,
    }
}

pub open spec fn no_settings() -> SceneSettings {
    SceneSettings { width: None, height: None, spp: None, max_depth: None, rr_depth: None }
}

impl SceneSettings {
    /// No settings at all.
    pub fn default() -> (r: Self)
        ensures
            r == no_settings(),
    {
        SceneSettings { width: None, height: None, spp: None, max_depth: None, rr_depth: None }
    }

    /// Carries the settings over; what is missing stays as it is.
    pub fn apply(&self, config: &mut RenderConfig)
        ensures
            *final(config) == (RenderConfig {
                width: or_else(self.width, old(config).width),
                height: or_else(self.height, old(config).height),
                spp: or_else(self.spp, old(config).spp),
                max_depth: or_else(self.max_depth, old(config).max_depth),
                rr_depth: or_else(self.rr_depth, old(config).rr_depth),
                ..*old(config)
            }),
    {
        if let Some(w) = self.width {
            config.width = w;
        }
        if let Some(h) = self.height {
            config.height = h;
        }
        if let Some(n) = self.spp {
            config.spp = n;
        }
        if let Some(d) = self.max_depth {
            config.max_depth = d;
        }
        if let Some(d) = self.rr_depth {
            config.rr_depth = d;
        }
    }
}

/// A count, one at least.
pub open spec fn at_least_one(v: Option<int>) -> Option<usize> {
    match v {
        Some(n) => Some(
            if n < 1 {
                1usize
            } else {
                n as usize
            },
        ),
        None => None,
    }
}

/// The longest path that the property asks for: -1 is without limit, other negative numbers do
/// not count.
pub open spec fn depth_limit(v: Option<int>, was: Option<usize>) -> Option<usize> {
    match v {
        Some(d) => if d == -1 {
            Some(usize::MAX)
        } else if 0 <= d <= usize::MAX {
            Some(d as usize)
        } else if d > usize::MAX {
            Some(usize::MAX)
        } else {
            was
        },
        None => was,
    }
}

/// The path length for Russian roulette that the property asks for: less than one does not count.
pub open spec fn roulette_start(v: Option<int>, was: Option<usize>) -> Option<usize> {
    match v {
        Some(d) => if 1 <= d <= usize::MAX {
            Some(d as usize)
        } else if d > usize::MAX {
            Some(usize::MAX)
        } else {
            was
        },
        None => was,
    }
}

/// The settings after one more child of the scene.
pub open spec fn with_settings(s: SceneSettings, c: Node) -> SceneSettings {
    if c.tag == "film"@ {
        SceneSettings {
            width: either(at_least_one(int_of(c, "width")), s.width),
            height: either(at_least_one(int_of(c, "height")), s.height),
            ..s
        }
    } else if c.tag == "sampler"@ {
        SceneSettings { spp: either(at_least_one(int_of(c, "sample_count")), s.spp), ..s }
    } else if c.tag == "integrator"@ {
        SceneSettings {
            max_depth: depth_limit(int_signed_of(c, "max_depth"), s.max_depth),
            rr_depth: roulette_start(int_signed_of(c, "rr_depth"), s.rr_depth),
            ..s
        }
    } else {
        s
    }
}

/// What reading the settings of a child warns of.
pub open spec fn settings_warnings(c: Node) -> Seq<Seq<char>> {
    if c.tag == "integrator"@ {
        (match int_signed_of(c, "max_depth") {
            Some(d) => if d < -1 {
                seq![
                    "integrator max_depth "@ + signed_text(d)
                        + " is invalid (expected -1 or >= 0); ignored"@,
                ]
            } else {
                Seq::<Seq<char>>::empty()
            },
            None => Seq::empty(),
        }) + (match int_signed_of(c, "rr_depth") {
            Some(d) => if d < 1 {
                seq![
                    "integrator rr_depth "@ + signed_text(d)
                        + " is invalid (expected >= 1); ignored"@,
                ]
            } else {
                Seq::<Seq<char>>::empty()
            },
            None => Seq::empty(),
        })
    } else {
        Seq::empty()
    }
}

/// The settings that these children ask for; the last one that does decides.
pub open spec fn settings_in(c: Seq<Node>) -> SceneSettings
    decreases c.len(),
{
    if c.len() == 0 {
        no_settings()
    } else {
        with_settings(settings_in(c.drop_last()), c.last())
    }
}

pub open spec fn all_settings_warnings(c: Seq<Node>) -> Seq<Seq<char>>
    decreases c.len(),
{
    if c.len() == 0 {
        Seq::empty()
    } else {
        all_settings_warnings(c.drop_last()) + settings_warnings(c.last())
    }
}

fn one_at_least(v: Option<usize>) -> (r: Option<usize>)
    ensures
        r == at_least_one(
            match v {
                Some(n) => Some(n as int),
                None => None,
            },
        ),
{
    match v {
        Some(n) => Some(
            if n < 1 {
                1
            } else {
                n
            },
        ),
        None => None,
    }
}

fn clip(d: i64) -> (r: usize)
    requires
        0 <= d,
    ensures
        d <= usize::MAX ==> r == d,
        d > usize::MAX ==> r == usize::MAX,
{
    if d as u64 <= usize::MAX as u64 {
        d as usize
    } else {
        usize::MAX
    }
}

fn read_settings(s: SceneSettings, c: &Element, warnings: &mut Vec<String>) -> (r: SceneSettings)
    ensures
        r == with_settings(s, c.node()),
        strings(final(warnings)@) == strings(old(warnings)@) + settings_warnings(c.node()),
{
    let mut r = s;
    let ghost start = strings(warnings@);
    proof {
        assert("film"@.len() == 4 && "sampler"@.len() == 7 && "integrator"@.len() == 10) by {
            reveal_strlit("film");
            reveal_strlit("sampler");
            reveal_strlit("integrator");
        }
    }
    if c.is_tag("film") {
        if let Some(w) = one_at_least(c.integer("width")) {
            r.width = Some(w);
        }
        if let Some(h) = one_at_least(c.integer("height")) {
            r.height = Some(h);
        }
        assert(settings_warnings(c.node()) =~= Seq::<Seq<char>>::empty());
        assert(start + Seq::<Seq<char>>::empty() =~= start);
    } else if c.is_tag("sampler") {
        if let Some(n) = one_at_least(c.integer("sample_count")) {
            r.spp = Some(n);
        }
        assert(settings_warnings(c.node()) =~= Seq::<Seq<char>>::empty());
        assert(start + Seq::<Seq<char>>::empty() =~= start);
    } else if c.is_tag("integrator") {
        if let Some(d) = c.int_signed("max_depth") {
            if d == -1 {
                r.max_depth = Some(usize::MAX);
            } else if d >= 0 {
                r.max_depth = Some(clip(d));
            } else {
                let t = to_signed(d);
                warn3(
                    warnings,
                    "integrator max_depth ",
                    t.as_str(),
                    " is invalid (expected -1 or >= 0); ignored",
                );
            }
        }
        if let Some(d) = c.int_signed("rr_depth") {
            if d >= 1 {
                r.rr_depth = Some(clip(d));
            } else {
                let t = to_signed(d);
                warn3(
                    warnings,
                    "integrator rr_depth ",
                    t.as_str(),
                    " is invalid (expected >= 1); ignored",
                );
            }
        }
        assert(strings(warnings@) =~= start + settings_warnings(c.node()));
    } else {
        assert(settings_warnings(c.node()) =~= Seq::<Seq<char>>::empty());
        assert(start + Seq::<Seq<char>>::empty() =~= start);
    }
    r
}

/// What is to be done with an element of a scene, in the order of the document. Numbers count the
/// children of the scene.
pub enum Step {
    /// The sensor at this child becomes the camera; the last one stays.
    Sensor(usize),
    Shape(usize),
    /// A light without extent.
    Light(usize),
    /// The environment; the last one that can be had stays.
    Environment(usize),
    /// The medium that fills the scene.
    Medium(usize),
    Warning(String),
}

pub enum StepModel {
    Sensor(int),
    Shape(int),
    Light(int),
    Environment(int),
    Medium(int),
    Warning(Seq<char>),
}

impl View for Step {
    type V = StepModel;

    open spec fn view(&self) -> StepModel {
        match self {
            Step::Sensor(i) => StepModel::Sensor(*i as int),
            Step::Shape(i) => StepModel::Shape(*i as int),
            Step::Light(i) => StepModel::Light(*i as int),
            Step::Environment(i) => StepModel::Environment(*i as int),
            Step::Medium(i) => StepModel::Medium(*i as int),
            Step::Warning(s) => StepModel::Warning(s@),
        }
    }
}

pub open spec fn step_models(v: Seq<Step>) -> Seq<StepModel> {
    v.map_values(|s: Step| s@)
}

/// Whether this is the type of a light without extent.
pub open spec fn is_delta(t: Seq<char>) -> bool {
    t == "point"@ || t == "directional"@ || t == "spot"@
}

/// Whether any of these children is a medium.
pub open spec fn has_medium(c: Seq<Node>) -> bool {
    exists|i: int| 0 <= i < c.len() && (#[trigger] c[i]).tag == "medium"@
}

/// Whether this element says how to render, not what.
pub open spec fn is_setting(tag: Seq<char>) -> bool {
    tag == "integrator"@ || tag == "sampler"@ || tag == "film"@ || tag == "default"@ || tag
        == "rfilter"@
}

/// What is to be done with child `i`, with those before it known.
pub open spec fn step_for(before: Seq<Node>, c: Node, i: int) -> Option<StepModel> {
    if c.tag == "sensor"@ {
        Some(
            if typ(c) == "perspective"@ {
                StepModel::Sensor(i)
            } else {
                StepModel::Warning("unsupported sensor type '"@ + typ(c) + "', ignored"@)
            },
        )
    } else if c.tag == "shape"@ {
        Some(StepModel::Shape(i))
    } else if c.tag == "emitter"@ {
        Some(
            if is_delta(typ(c)) {
                StepModel::Light(i)
            } else {
                StepModel::Environment(i)
            },
        )
    } else if c.tag == "medium"@ {
        Some(
            if has_medium(before) {
                StepModel::Warning("more than one <medium>; only the first is used"@)
            } else {
                StepModel::Medium(i)
            },
        )
    } else if is_setting(c.tag) {
        None
    } else {
        Some(StepModel::Warning("unsupported element <"@ + c.tag + ">, skipped"@))
    }
}

/// What is to be done with these children.
pub open spec fn steps_for(c: Seq<Node>) -> Seq<StepModel>
    decreases c.len(),
{
    if c.len() == 0 {
        Seq::empty()
    } else {
        let before = steps_for(c.drop_last());
        match step_for(c.drop_last(), c.last(), c.len() - 1) {
            Some(s) => before.push(s),
            None => before,
        }
    }
}

/// Whether any step gives the scene a camera.
pub open spec fn has_camera(s: Seq<StepModel>) -> bool {
    exists|i: int| 0 <= i < s.len() && (#[trigger] s[i]) is Sensor
}

/// All steps: where there is no camera, the last one says so.
pub open spec fn all_steps(c: Seq<Node>) -> Seq<StepModel> {
    let s = steps_for(c);
    if has_camera(s) {
        s
    } else {
        s.push(StepModel::Warning("no perspective sensor found; using a default camera"@))
    }
}

fn read_step(c: &Element, i: usize, seen_medium: bool, Ghost(before): Ghost<Seq<Node>>) -> (r: Option<
    Step,
>)
    requires
        seen_medium == has_medium(before),
    ensures
        match r {
            Some(s) => step_for(before, c.node(), i as int) == Some(s@),
            None => step_for(before, c.node(), i as int) is None,
        },
{
    if c.is_tag("sensor") {
        if c.is_typ("perspective") {
            Some(Step::Sensor(i))
        } else {
            let mut w: Vec<String> = Vec::new();
            warn3(&mut w, "unsupported sensor type '", c.typ(), "', ignored");
            Some(Step::Warning(take_first(w)))
        }
    } else if c.is_tag("shape") {
        Some(Step::Shape(i))
    } else if c.is_tag("emitter") {
        if c.is_typ("point") || c.is_typ("directional") || c.is_typ("spot") {
            Some(Step::Light(i))
        } else {
            Some(Step::Environment(i))
        }
    } else if c.is_tag("medium") {
        if seen_medium {
            Some(Step::Warning(copied("more than one <medium>; only the first is used")))
        } else {
            Some(Step::Medium(i))
        }
    } else if c.is_tag("integrator") || c.is_tag("sampler") || c.is_tag("film") || c.is_tag(
        "default",
    ) || c.is_tag("rfilter") {
        None
    } else {
        let mut w: Vec<String> = Vec::new();
        warn3(&mut w, "unsupported element <", c.tag.as_str(), ">, skipped");
        Some(Step::Warning(take_first(w)))
    }
}

fn take_first(w: Vec<String>) -> (r: String)
    requires
        w@.len() == 1 || strings(w@).len() == 1,
    ensures
        r@ == strings(w@)[0],
{
    assert(strings(w@).len() == w@.len());
    copied(w[0].as_str())
}

/// A scene file taken apart.
pub struct SceneOutline {
    /// The scene.
    pub root: Element,
    /// The settings, with the resolution that will be rendered.
    pub settings: SceneSettings,
    /// What the settings were warned of.
    pub warnings: Vec<String>,
    /// What is to be done, in order.
    pub steps: Vec<Step>,
}

/// The resolution on an axis: what was forced, else what the scene asks for, else the default.
pub open spec fn resolved(forced: Option<usize>, scene: Option<usize>, base: usize) -> usize {
    or_else(either(forced, scene), base)
}

/// The settings that a scene is rendered with.
pub open spec fn final_settings(
    c: Seq<Node>,
    base: RenderConfig,
    forced: (Option<usize>, Option<usize>),
) -> SceneSettings {
    let s = settings_in(c);
    SceneSettings {
        width: Some(resolved(forced.0, s.width, base.width)),
        height: Some(resolved(forced.1, s.height, base.height)),
        ..s
    }
}

/// Takes the tree of a scene apart.
pub fn outline(
    root: Element,
    base_config: &RenderConfig,
    forced_resolution: (Option<usize>, Option<usize>),
) -> (r: Result<SceneOutline, SceneError>)
    ensures
        root.node().tag != "scene"@ ==> (r matches Err(e) && e@ == ErrorModel::NotAScene),
        root.node().tag == "scene"@ ==> (r matches Ok(o) && o.root == root && o.settings
            == final_settings(root.node().children, *base_config, forced_resolution) && strings(
            o.warnings@,
        ) == all_settings_warnings(root.node().children) && step_models(o.steps@) == all_steps(
            root.node().children,
        )),
{
    if !root.is_tag("scene") {
        return Err(SceneError::NotAScene);
    }
    let ghost all = root.node().children;
    proof {
        lemma_node_children(&root);
    }
    let mut settings = SceneSettings::default();
    let mut warnings: Vec<String> = Vec::new();
    let mut steps: Vec<Step> = Vec::new();
    let mut seen_medium: bool = false;
    let mut camera: bool = false;
    let n: usize = root.children.len();
    let mut i: usize = 0;
    proof {
        assert(all.take(0) =~= Seq::<Node>::empty());
        assert(strings(warnings@) =~= Seq::<Seq<char>>::empty());
        assert(step_models(steps@) =~= Seq::<StepModel>::empty());
    }
    while i < n
        invariant
            i <= n,
            n == root.children@.len(),
            all == root.node().children,
            all == nodes(root.children@),
            settings == settings_in(all.take(i as int)),
            strings(warnings@) == all_settings_warnings(all.take(i as int)),
            step_models(steps@) == steps_for(all.take(i as int)),
            seen_medium == has_medium(all.take(i as int)),
            camera == has_camera(step_models(steps@)),
        decreases n - i,
    {
        let c: &Element = &root.children[i];
        let ghost before = all.take(i as int);
        proof {
            assert(all.take(i + 1).drop_last() =~= before);
            assert(all[i as int] == c.node());
            lemma_has_medium(all, i as int);
        }
        settings = read_settings(settings, c, &mut warnings);
        let ghost s0 = steps@;
        if let Some(s) = read_step(c, i, seen_medium, Ghost(before)) {
            let ghost sv = s@;
            if let Step::Sensor(_) = s {
                camera = true;
            }
            steps.push(s);
            proof {
                assert(step_models(steps@) =~= step_models(s0).push(sv));
                lemma_has_camera(step_models(s0), sv);
            }
        }
        if c.is_tag("medium") {
            seen_medium = true;
        }
        i += 1;
    }
    proof {
        assert(all.take(i as int) =~= all);
    }
    if !camera {
        let ghost s0 = steps@;
        let t = copied("no perspective sensor found; using a default camera");
        steps.push(Step::Warning(t));
        assert(step_models(steps@) =~= step_models(s0).push(StepModel::Warning(t@)));
    }
    let width: usize = match forced_resolution.0 {
        Some(w) => w,
        None => match settings.width {
            Some(w) => w,
            None => base_config.width,
        },
    };
    let height: usize = match forced_resolution.1 {
        Some(h) => h,
        None => match settings.height {
            Some(h) => h,
            None => base_config.height,
        },
    };
    settings.width = Some(width);
    settings.height = Some(height);
    Ok(SceneOutline { root, settings, warnings, steps })
}

proof fn lemma_has_medium(all: Seq<Node>, i: int)
    requires
        0 <= i < all.len(),
    ensures
        has_medium(all.take(i + 1)) == (has_medium(all.take(i)) || all[i].tag == "medium"@),
{
    let a = all.take(i);
    let b = all.take(i + 1);
    if has_medium(a) {
        let k = choose|k: int| 0 <= k < a.len() && (#[trigger] a[k]).tag == "medium"@;
        assert(b[k] == a[k]);
    }
    if all[i].tag == "medium"@ {
        assert(b[i] == all[i]);
    }
    if has_medium(b) {
        let k = choose|k: int| 0 <= k < b.len() && (#[trigger] b[k]).tag == "medium"@;
        if k < i {
            assert(a[k] == b[k]);
        }
    }
}

proof fn lemma_has_camera(s: Seq<StepModel>, x: StepModel)
    ensures
        has_camera(s.push(x)) == (has_camera(s) || x is Sensor),
{
    let t = s.push(x);
    if has_camera(s) {
        let k = choose|k: int| 0 <= k < s.len() && (#[trigger] s[k]) is Sensor;
        assert(t[k] == s[k]);
    }
    if x is Sensor {
        assert(t[s.len() as int] == x);
    }
    if has_camera(t) {
        let k = choose|k: int| 0 <= k < t.len() && (#[trigger] t[k]) is Sensor;
        if k < s.len() {
            assert(s[k] == t[k]);
        }
    }
}

/// Reads a scene file: the tree that its text stands for, taken apart.
pub fn load_scene_from_str(
    xml: &str,
    base_config: &RenderConfig,
    forced_resolution: (Option<usize>, Option<usize>),
) -> (r: Result<SceneOutline, SceneError>)
    ensures
        match tree(document(xml@)) {
            Err(e) => r matches Err(x) && x@ == e,
            Ok(n) => {
                &&& n.tag != "scene"@ ==> (r matches Err(x) && x@ == ErrorModel::NotAScene)
                &&& n.tag == "scene"@ ==> (r matches Ok(o) && o.root.node() == n && o.settings
                    == final_settings(n.children, *base_config, forced_resolution) && strings(
                    o.warnings@,
                ) == all_settings_warnings(n.children) && step_models(o.steps@) == all_steps(
                    n.children,
                ))
            },
        },
{
    match parse_tree(xml) {
        Ok(root) => outline(root, base_config, forced_resolution),
        Err(e) => Err(e),
    }
}

/// The resolution that was forced is the resolution that is rendered, whatever the scene asks for.
pub proof fn forced_resolution_wins(
    c: Seq<Node>,
    base: RenderConfig,
    forced: (Option<usize>, Option<usize>),
)
    ensures
        forced.0 is Some ==> final_settings(c, base, forced).width == forced.0,
        forced.1 is Some ==> final_settings(c, base, forced).height == forced.1,
        final_settings(c, base, forced).width is Some,
        final_settings(c, base, forced).height is Some,
{
}

/// At most one medium is used.
pub proof fn one_medium_at_most(c: Seq<Node>, i: int, j: int)
    requires
        0 <= i < j < steps_for(c).len(),
        steps_for(c)[i] is Medium,
    ensures
        !(steps_for(c)[j] is Medium),
    decreases c.len(),
{
    if c.len() > 0 {
        let d = c.drop_last();
        let before = steps_for(d);
        if j < before.len() {
            one_medium_at_most(d, i, j);
        } else if i < before.len() {
            lemma_medium_step(d, i);
        }
    }
}

proof fn lemma_medium_step(c: Seq<Node>, i: int)
    requires
        0 <= i < steps_for(c).len(),
        steps_for(c)[i] is Medium,
    ensures
        has_medium(c),
    decreases c.len(),
{
    if c.len() > 0 {
        let d = c.drop_last();
        if i < steps_for(d).len() {
            lemma_medium_step(d, i);
            let k = choose|k: int| 0 <= k < d.len() && (#[trigger] d[k]).tag == "medium"@;
            assert(c[k] == d[k]);
        } else {
            assert(c[c.len() - 1].tag == "medium"@);
        }
    }
}

/// A path in a directory: an absolute path stands for itself.
pub open spec fn path_in(base: Seq<char>, file: Seq<char>) -> Seq<char> {
    if (file.len() > 0 && file[0] == '/') || base.len() == 0 {
        file
    } else if base.last() == '/' {
        base + file
    } else {
        base.push('/') + file
    }
}

/// The path of a file that a scene in `base_dir` refers to.
pub fn resolve_path(base_dir: &str, filename: &str) -> (r: String)
    ensures
        r@ == path_in(base_dir@, filename@),
{
    let mut b = chars_of(base_dir);
    let mut f = chars_of(filename);
    if f.len() > 0 && f[0] == '/' {
        return copied(filename);
    }
    if b.len() == 0 {
        return copied(filename);
    }
    if b[b.len() - 1] != '/' {
        b.push('/');
    }
    b.append(&mut f);
    assert(b@ =~= path_in(base_dir@, filename@));
    string_of(&b)
}

/// Whether this element refers to a file.
pub open spec fn refers_to_file(n: Node) -> bool {
    n.tag == "string"@ && (attr(n, "name"@) == Some("filename"@) || attr(n, "name"@) == Some(
        "filename_end"@,
    )) && attr(n, "value"@) is Some
}

/// The files that an element and those below it refer to, in the order of the document.
pub open spec fn files_in(n: Node, base: Seq<char>) -> Seq<Seq<char>>
    decreases n, 0int,
{
    (if refers_to_file(n) {
        seq![path_in(base, attr(n, "value"@)->Some_0)]
    } else {
        Seq::empty()
    }) + files_in_all(n.children, base)
}

pub open spec fn files_in_all(c: Seq<Node>, base: Seq<char>) -> Seq<Seq<char>>
    decreases c, c.len(),
{
    if c.len() == 0 {
        Seq::empty()
    } else {
        files_in_all(c.drop_last(), base) + files_in(c.last(), base)
    }
}

fn walk(el: &Element, base_dir: &str, out: &mut Vec<String>)
    ensures
        strings(final(out)@) == strings(old(out)@) + files_in(el.node(), base_dir@),
    decreases el,
{
    let ghost start = strings(out@);
    let ghost own: Seq<Seq<char>> = if refers_to_file(el.node()) {
        seq![path_in(base_dir@, attr(el.node(), "value"@)->Some_0)]
    } else {
        Seq::empty()
    };
    let named: bool = match el.attr("name") {
        Some(n) => same_str(n, "filename") || same_str(n, "filename_end"),
        None => false,
    };
    if el.is_tag("string") && named {
        if let Some(v) = el.attr("value") {
            let ghost before = out@;
            let p = resolve_path(base_dir, v);
            out.push(p);
            assert(strings(out@) =~= strings(before).push(p@));
        }
    }
    assert(strings(out@) =~= start + own);
    let ghost all = el.node().children;
    proof {
        lemma_node_children(el);
        assert(all.take(0) =~= Seq::<Node>::empty());
        assert(start + own + files_in_all(all.take(0), base_dir@) =~= start + own);
    }
    let mut i: usize = 0;
    while i < el.children.len()
        invariant
            i <= el.children@.len(),
            all == nodes(el.children@),
            strings(out@) == start + own + files_in_all(all.take(i as int), base_dir@),
        decreases el.children@.len() - i,
    {
        let ghost before = strings(out@);
        walk(&el.children[i], base_dir, out);
        proof {
            let t = all.take(i + 1);
            assert(t.drop_last() =~= all.take(i as int));
            assert(t.last() == el.children@[i as int].node());
            assert(strings(out@) =~= start + own + files_in_all(t, base_dir@));
        }
        i += 1;
    }
    proof {
        assert(all.take(i as int) =~= all);
        assert(start + own + files_in_all(all, base_dir@) =~= start + files_in(
            el.node(),
            base_dir@,
        ));
    }
}

/// The files that a tree refers to, in the order of the document.
pub fn files_of(root: &Element, base_dir: &str) -> (r: Vec<String>)
    ensures
        strings(r@) == files_in(root.node(), base_dir@),
{
    let mut out: Vec<String> = Vec::new();
    walk(root, base_dir, &mut out);
    assert(strings(out@) =~= files_in(root.node(), base_dir@));
    out
}

/// The files that a scene refers to, in the order of the document: meshes, their positions at the
/// end of a motion, and images.
pub fn referenced_files(xml: &str, base_dir: &str) -> (r: Result<Vec<String>, SceneError>)
    ensures
        match tree(document(xml@)) {
            Err(e) => r matches Err(x) && x@ == e,
            Ok(n) => r matches Ok(v) && strings(v@) == files_in(n, base_dir@),
        },
{
    match parse_tree(xml) {
        Err(e) => Err(e),
        Ok(root) => Ok(files_of(&root, base_dir)),
    }
}

} // verus!
