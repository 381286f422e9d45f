use tinypt::integrator::{
    at_vertex, is_spent, map_for, scatter, start_path, survival_probability, survives, traces,
    Count, Met, PathLimits, PathState, Strata,
};
use tinypt::material::{Lobe, Material};
use tinypt::reals::{
    clamp, drop_negative, finite, is_black, less, less_or_equal, nan, to_single, without_negative,
};
use tinypt::viewer::{Preview, Stage, Status};

fn bits(r: f64, g: f64, b: f64) -> (u64, u64, u64) {
    (r.to_bits(), g.to_bits(), b.to_bits())
}

fn rr_survival_probability(throughput_max: f64, eta_scale: f64) -> f64 {
    f64::from_bits(survival_probability((throughput_max * eta_scale * eta_scale).to_bits()))
}

#[test]
fn is_black_is_exact_per_channel() {
    assert!(is_black(bits(0.0, 0.0, 0.0)));
    assert!(!is_black(bits(0.0, 1e-300, 0.0)));
    assert!(!is_black(bits(-0.1, 0.0, 0.0)));
    assert!(is_black(bits(-0.0, 0.0, 0.0)));
}

#[test]
fn rr_survival_probability_compensates_eta_squared() {
    let after_entering = 1.0 / (1.5 * 1.5);
    assert!((rr_survival_probability(after_entering, 1.5) - 0.95).abs() < 1e-12);
    assert!((rr_survival_probability(after_entering, 1.0) - after_entering).abs() < 1e-12);
    assert!((rr_survival_probability(0.3, 1.5 * (1.0 / 1.5)) - 0.3).abs() < 1e-12);
    assert_eq!(rr_survival_probability(1e-6, 1.0), 0.05);
    assert_eq!(rr_survival_probability(10.0, 1.0), 0.95);
    assert_eq!(rr_survival_probability(f64::NAN, 1.0), f64::NAN.min(0.95).max(0.05));
}

#[test]
fn a_draw_below_the_probability_survives() {
    assert!(survives(0.4f64.to_bits(), 0.5f64.to_bits()));
    assert!(!survives(0.5f64.to_bits(), 0.5f64.to_bits()));
    assert!(is_spent(0f64.to_bits()) && is_spent((-1f64).to_bits()));
    assert!(!is_spent(1e-9f64.to_bits()));
}

#[test]
fn classification_is_correct() {
    let white = bits(1.0, 1.0, 1.0);
    assert!(Material::Metal { albedo: white }.is_delta());
    assert!(Material::Dielectric { ior: 1.5f64.to_bits(), absorption: bits(0.0, 0.0, 0.0) }.is_delta());
    assert!(!Material::Lambert { albedo: white }.is_delta());
    assert!(!Material::Ggx { albedo: white, alpha: 0.2f64.to_bits() }.is_delta());
    let emit = bits(3.0, 3.0, 3.0);
    assert!(Material::DiffuseLight { emit }.emitted().is_some());
    assert!(Material::Lambert { albedo: white }.emitted().is_none());
}

#[test]
fn materials_can_be_changed_part_by_part() {
    let (a, b) = (bits(0.1, 0.2, 0.3), bits(0.5, 0.5, 0.5));
    assert_eq!(Material::Lambert { albedo: a }.with_albedo(b).albedo(), Some(b));
    assert_eq!(Material::DiffuseLight { emit: a }.with_albedo(b).emitted(), Some(a));
    assert_eq!(Material::DiffuseLight { emit: a }.with_emit(b).emitted(), Some(b));
    let ggx = Material::Ggx { albedo: a, alpha: 1 };
    assert_eq!(ggx.with_alpha(2), Material::Ggx { albedo: a, alpha: 2 });
    let glass = Material::Dielectric { ior: 1, absorption: a };
    assert_eq!(glass.with_ior(2).with_absorption(b), Material::Dielectric { ior: 2, absorption: b });
    assert_eq!(glass.albedo(), None);
    assert_eq!(Material::Subsurface { albedo: a }.albedo(), Some(a));
}

#[test]
fn glass_reflects_or_refracts() {
    let glass = Material::Dielectric { ior: 1, absorption: bits(0.0, 0.0, 0.0) };
    assert_eq!(glass.lobe(true, false), Some(Lobe::Mirror));
    assert_eq!(glass.lobe(false, true), Some(Lobe::Mirror));
    assert_eq!(glass.lobe(false, false), Some(Lobe::Refraction));
    let white = bits(1.0, 1.0, 1.0);
    assert_eq!(Material::Lambert { albedo: white }.lobe(false, false), Some(Lobe::Diffuse));
    assert_eq!(Material::DiffuseLight { emit: white }.lobe(false, false), None);
    assert!(Lobe::Refraction.keeps(false) && !Lobe::Refraction.keeps(true));
    assert!(Lobe::Diffuse.keeps(true) && !Lobe::Diffuse.keeps(false));
    assert!(Lobe::Mirror.is_delta() && !Lobe::Glossy.is_delta());
}

const UNLIMITED: usize = usize::MAX;

fn limits(max_depth: usize) -> PathLimits {
    PathLimits { max_depth, rr_depth: 1000 }
}

#[test]
fn depth_is_the_length_of_the_path() {
    let s = start_path();
    assert!(!traces(limits(0), s));
    assert!(traces(limits(1), s));
    let light = at_vertex(limits(1), s, Met::Light, true, false);
    assert_eq!(light.count, Count::Emission { weighted: false });
    let floor = at_vertex(limits(1), s, Met::Surface { delta: false }, true, false);
    assert!(!floor.sample_lights && !floor.extend);
    for max_depth in [2, 3, 8, UNLIMITED] {
        let floor = at_vertex(limits(max_depth), s, Met::Surface { delta: false }, true, false);
        assert!(floor.sample_lights && floor.extend);
        let next = scatter(s, false);
        assert_eq!(next, PathState { bounce: 1, last_non_delta: true });
        let light = at_vertex(limits(max_depth), next, Met::Light, true, false);
        assert_eq!(light.count, Count::Emission { weighted: true });
    }
}

#[test]
fn mirrors_do_not_sample_lights() {
    let s = start_path();
    let v = at_vertex(limits(8), s, Met::Surface { delta: true }, true, true);
    assert!(!v.sample_lights && v.extend);
    let next = scatter(s, true);
    let sky = at_vertex(limits(8), next, Met::Nothing, true, true);
    assert_eq!(sky.count, Count::Background { weighted: false });
    assert!(!sky.extend);
}

#[test]
fn strata_count_at_the_first_vertex_only() {
    let s = start_path();
    assert!(at_vertex(limits(8), s, Met::Surface { delta: false }, true, true).stratified);
    assert!(!at_vertex(limits(8), s, Met::Surface { delta: false }, true, false).stratified);
    let next = scatter(s, false);
    assert!(!at_vertex(limits(8), next, Met::Surface { delta: false }, true, true).stratified);
}

#[test]
fn strata_cover_the_grid() {
    let mut seen = [[false; 3]; 4];
    for stratum in 0..12 {
        let (x, y) = Strata { stratum, nx: 3, ny: 4 }.cell();
        assert!(!seen[y][x]);
        seen[y][x] = true;
    }
    let again = Strata { stratum: 12, nx: 3, ny: 4 }.cell();
    assert_eq!(again, Strata { stratum: 0, nx: 3, ny: 4 }.cell());
}

#[test]
fn maps_are_looked_up_by_material() {
    let maps = vec![None, Some(4)];
    assert_eq!(map_for(&maps, 0), None);
    assert_eq!(map_for(&maps, 1), Some(4));
    assert_eq!(map_for(&Vec::new(), 1), None);
}

#[test]
fn bits_compare_like_numbers() {
    let all = [f64::NEG_INFINITY, -2.5, -1e-300, -0.0, 0.0, 1e-300, 1.0, 3.5, f64::INFINITY, f64::NAN];
    for a in all {
        assert_eq!(nan(a.to_bits()), a.is_nan());
        assert_eq!(finite(a.to_bits()), a.is_finite());
        assert_eq!(f64::from_bits(without_negative(a.to_bits())), a.max(0.0));
        for b in all {
            assert_eq!(less(a.to_bits(), b.to_bits()), a < b);
            assert_eq!(less_or_equal(a.to_bits(), b.to_bits()), a <= b);
        }
        if !a.is_nan() {
            let c = clamp((-1f64).to_bits(), a.to_bits(), 2f64.to_bits());
            assert_eq!(f64::from_bits(c), a.clamp(-1.0, 2.0));
        }
    }
    let (c, any) = drop_negative(bits(-1.0, 2.0, 3.0));
    assert!(any);
    assert_eq!(c, bits(0.0, 2.0, 3.0));
    assert_eq!(drop_negative(bits(1.0, 2.0, 3.0)), (bits(1.0, 2.0, 3.0), false));
}

#[test]
fn the_preview_saves_once_when_the_render_ends() {
    let mut p = Preview {
        shown_tiles: None,
        autosave: Some("out.png".to_string()),
        cancel_at_tiles: Some(3),
    };
    let f = p.update(Stage::Loading);
    assert_eq!(f.status, Status::Loading);
    assert!(!f.can_save && !f.redraw && f.repaint);
    let f = p.update(Stage::Rendering { tiles: 2 });
    assert!(f.running && f.redraw && !f.cancel);
    let f = p.update(Stage::Rendering { tiles: 2 });
    assert!(!f.redraw);
    let f = p.update(Stage::Rendering { tiles: 3 });
    assert!(f.cancel);
    let f = p.update(Stage::Rendering { tiles: 4 });
    assert!(!f.cancel);
    let f = p.update(Stage::Finished { tiles: 4, cancelled: true });
    assert_eq!(f.status, Status::Aborted);
    assert_eq!(f.save_to.as_deref(), Some("out.png"));
    let f = p.update(Stage::Finished { tiles: 4, cancelled: false });
    assert_eq!(f.status, Status::Done);
    assert!(f.save_to.is_none() && !f.repaint);
    p.reload();
    assert_eq!(p.shown_tiles, None);
    assert_eq!(p.update(Stage::Failed).status, Status::Failed);
}

#[test]
fn single_precision_is_rounded_to_even() {
    let xs = [
        0.0,
        -0.0,
        1.0,
        -1.0,
        0.1,
        0.3,
        1.0 / 3.0,
        1.0 - f64::EPSILON,
        0.5 + 2f64.powi(-25),
        0.5 + 3.0 * 2f64.powi(-25),
        2f64.powi(-126),
        2f64.powi(-126) - 2f64.powi(-151),
        2f64.powi(-130) + 2f64.powi(-149),
        2f64.powi(-149),
        2f64.powi(-150),
        1.5 * 2f64.powi(-150),
        2f64.powi(-151),
        f64::MIN_POSITIVE,
        5e-324,
    ];
    for x in xs {
        assert_eq!(to_single(x.to_bits()), (x as f32).to_bits(), "{x:e}");
    }
    assert_eq!(to_single(0.1f64.to_bits()), 0x3dcc_cccd);
    assert!(f32::from_bits(to_single(f64::NAN.to_bits())).is_nan());
}
