//! The rules of path tracing: how long paths get, where lights are sampled, which contributions
//! are weighted against each other, and when chance ends a path.
//!
//! Rays, colours and probabilities are computed elsewhere; what is decided here depends on how
//! many vertices the path has and on what it meets.

use crate::reals::{at_most, between, clamp, is_nan, less_or_equal, nan, ZERO};
use vstd::prelude::*;

verus! {

/// The bits of 0.05, the smallest probability to go on.
pub const LEAST_SURVIVAL: u64 = 0x3FA9_9999_9999_999A;

/// The bits of 0.95, the largest probability to go on where chance decides.
pub const MOST_SURVIVAL: u64 = 0x3FEE_6666_6666_6666;

/// A stratum of a pixel: which cell of a grid a sample lies in.
#[derive(Clone, Copy, Debug, PartialEq, Eq, Structural)]
pub struct Strata {
    /// The number of the sample.
    pub stratum: usize,
    /// Columns of the grid.
    pub nx: usize,
    /// Rows of the grid.
    pub ny: usize,
}

/// The cell of stratum `s` in a grid.
pub open spec fn cell_of(s: int, nx: int, ny: int) -> (int, int) {
    (s % nx, (s / nx) % ny)
}

impl Strata {
    /// The cell that the sample lies in, column and row. Strata beyond the grid start over.
    pub fn cell(&self) -> (r: (usize, usize))
        requires
            self.nx > 0,
            self.ny > 0,
        ensures
            (r.0 as int, r.1 as int) == cell_of(
                self.stratum as int,
                self.nx as int,
                self.ny as int,
            ),
            r.0 < self.nx,
            r.1 < self.ny,
    {
        (self.stratum % self.nx, (self.stratum / self.nx) % self.ny)
    }
}

/// The strata of a grid fill it: different strata lie in different cells, and every cell has one.
pub proof fn strata_fill_the_grid(nx: int, ny: int, a: int, b: int, x: int, y: int)
    requires
        nx > 0,
        ny > 0,
        0 <= a < nx * ny,
        0 <= b < nx * ny,
        0 <= x < nx,
        0 <= y < ny,
    ensures
        cell_of(a, nx, ny) == cell_of(b, nx, ny) ==> a == b,
        0 <= y * nx + x < nx * ny,
        cell_of(y * nx + x, nx, ny) == (x, y),
{
    lemma_row(nx, ny, a);
    lemma_row(nx, ny, b);
    vstd::arithmetic::div_mod::lemma_fundamental_div_mod(a, nx);
    vstd::arithmetic::div_mod::lemma_fundamental_div_mod(b, nx);
    let s = y * nx + x;
    assert(0 <= s < nx * ny) by (nonlinear_arith)
        requires
            0 <= x < nx,
            0 <= y < ny,
            s == y * nx + x,
    ;
    vstd::arithmetic::div_mod::lemma_fundamental_div_mod_converse(s, nx, y, x);
    vstd::arithmetic::div_mod::lemma_small_mod(y as nat, ny as nat);
}

proof fn lemma_row(nx: int, ny: int, a: int)
    requires
        nx > 0,
        ny > 0,
        0 <= a < nx * ny,
    ensures
        (a / nx) % ny == a / nx,
{
    vstd::arithmetic::div_mod::lemma_fundamental_div_mod(a, nx);
    let q = a / nx;
    let r = a % nx;
    assert(0 <= q < ny) by (nonlinear_arith)
        requires
            a == nx * q + r,
            0 <= r < nx,
            0 <= a < nx * ny,
            nx > 0,
    ;
    vstd::arithmetic::div_mod::lemma_small_mod(q as nat, ny as nat);
}

/// How long paths get.
#[derive(Clone, Copy, Debug, PartialEq, Eq, Structural)]
pub struct PathLimits {
    /// The length of the longest path: 1 for lights that are seen directly, 2 for direct
    /// lighting. The largest number is without limit.
    pub max_depth: usize,
    /// The length from which on chance decides whether a path goes on.
    pub rr_depth: usize,
}

/// Where a path is.
#[derive(Clone, Copy, Debug, PartialEq, Eq, Structural)]
pub struct PathState {
    /// How often the path was scattered.
    pub bounce: usize,
    /// Whether the last scattering could have had other directions, so that lights were sampled.
    pub last_non_delta: bool,
}

/// What a ray meets.
#[derive(Clone, Copy, Debug, PartialEq, Eq, Structural)]
pub enum Met {
    /// Nothing.
    Nothing,
    /// A light.
    Light,
    /// A surface that gives no light.
    Surface {
        /// Whether it scatters in single directions only.
        delta: bool,
    },
    /// A particle of the medium.
    Particle,
}

/// What is counted where a ray ends.
#[derive(Clone, Copy, Debug, PartialEq, Eq, Structural)]
pub enum Count {
    /// Nothing.
    Nothing,
    /// The background, weighted against sampling the environment or not.
    Background { weighted: bool },
    /// The light that was met, weighted against sampling it or not.
    Emission { weighted: bool },
}

/// What is done where a ray ends.
#[derive(Clone, Copy, Debug, PartialEq, Eq, Structural)]
pub struct Vertex {
    pub count: Count,
    /// Whether lights are sampled from here.
    pub sample_lights: bool,
    /// Whether the stratum of the sample decides where.
    pub stratified: bool,
    /// Whether the path may go on from here.
    pub extend: bool,
    /// Whether chance decides if it does.
    pub roulette: bool,
}

/// Nothing more than counting.
pub open spec fn ends(count: Count) -> Vertex {
    Vertex { count, sample_lights: false, stratified: false, extend: false, roulette: false }
}

/// What is done where a ray ends. A vertex after `bounce` scatterings ends a path of length
/// `bounce + 1`; sampling lights and going on makes it one longer.
pub open spec fn vertex_for(
    limits: PathLimits,
    s: PathState,
    met: Met,
    has_environment: bool,
    has_strata: bool,
) -> Vertex {
    match met {
        Met::Nothing => ends(Count::Background { weighted: has_environment && s.last_non_delta }),
        Met::Light => ends(Count::Emission { weighted: s.last_non_delta }),
        Met::Surface { delta } => if s.bounce + 2 > limits.max_depth {
            ends(Count::Nothing)
        } else {
            Vertex {
                count: Count::Nothing,
                sample_lights: !delta,
                stratified: !delta && s.bounce == 0 && has_strata,
                extend: true,
                roulette: s.bounce + 1 >= limits.rr_depth,
            }
        },
        Met::Particle => if s.bounce + 2 > limits.max_depth {
            ends(Count::Nothing)
        } else {
            Vertex {
                count: Count::Nothing,
                sample_lights: true,
                stratified: s.bounce == 0 && has_strata,
                extend: true,
                roulette: s.bounce + 1 >= limits.rr_depth,
            }
        },
    }
}

/// Whether another ray is traced.
pub open spec fn is_traced(limits: PathLimits, s: PathState) -> bool {
    s.bounce < limits.max_depth
}

/// The path after it was scattered.
pub open spec fn scattered(s: PathState, delta: bool) -> PathState {
    PathState { bounce: (s.bounce + 1) as usize, last_non_delta: !delta }
}

/// A path that has not been scattered yet.
pub fn start_path() -> (r: PathState)
    ensures
        r == (PathState { bounce: 0, last_non_delta: false }),
{
    PathState { bounce: 0, last_non_delta: false }
}

/// Whether another ray is traced.
pub fn traces(limits: PathLimits, s: PathState) -> (r: bool)
    ensures
        r == is_traced(limits, s),
{
    s.bounce < limits.max_depth
}

/// What is done where a ray ends.
pub fn at_vertex(
    limits: PathLimits,
    s: PathState,
    met: Met,
    has_environment: bool,
    has_strata: bool,
) -> (r: Vertex)
    ensures
        r == vertex_for(limits, s, met, has_environment, has_strata),
{
    let nothing = Vertex {
        count: Count::Nothing,
        sample_lights: false,
        stratified: false,
        extend: false,
        roulette: false,
    };
    let longer: bool = limits.max_depth >= 2 && s.bounce <= limits.max_depth - 2;
    let roulette: bool = limits.rr_depth == 0 || s.bounce >= limits.rr_depth - 1;
    match met {
        Met::Nothing => Vertex {
            count: Count::Background { weighted: has_environment && s.last_non_delta },
            ..nothing
        },
        Met::Light => Vertex { count: Count::Emission { weighted: s.last_non_delta }, ..nothing },
        Met::Surface { delta } => if longer {
            Vertex {
                count: Count::Nothing,
                sample_lights: !delta,
                stratified: !delta && s.bounce == 0 && has_strata,
                extend: true,
                roulette,
            }
        } else {
            nothing
        },
        Met::Particle => if longer {
            Vertex {
                count: Count::Nothing,
                sample_lights: true,
                stratified: s.bounce == 0 && has_strata,
                extend: true,
                roulette,
            }
        } else {
            nothing
        },
    }
}

/// The path after it was scattered, in a single direction or not.
pub fn scatter(s: PathState, delta: bool) -> (r: PathState)
    requires
        s.bounce < usize::MAX,
    ensures
        r == scattered(s, delta),
{
    PathState { bounce: s.bounce + 1, last_non_delta: !delta }
}

/// Whether a path carries nothing any more: its largest throughput is not above zero.
pub fn is_spent(throughput_max: u64) -> (r: bool)
    ensures
        r == at_most(throughput_max, ZERO),
{
    less_or_equal(throughput_max, ZERO)
}

/// The probability to go on, of the throughput freed from what refraction did to it.
pub open spec fn survival_of(p: u64) -> u64 {
    if is_nan(p) {
        MOST_SURVIVAL
    } else {
        between(LEAST_SURVIVAL, p, MOST_SURVIVAL)
    }
}

/// The probability to go on: neither too small, which would blow up the weight of what survives,
/// nor certain.
pub fn survival_probability(p: u64) -> (r: u64)
    ensures
        r == survival_of(p),
{
    if nan(p) {
        MOST_SURVIVAL
    } else {
        clamp(LEAST_SURVIVAL, p, MOST_SURVIVAL)
    }
}

/// Whether a path goes on when chance draws a number below one.
pub fn survives(draw: u64, probability: u64) -> (r: bool)
    ensures
        r == !at_most(probability, draw),
{
    !less_or_equal(probability, draw)
}

/// The map that bends the normals of a material, if there is one. An empty table has none.
pub fn map_for(mat_maps: &Vec<Option<usize>>, mat_id: usize) -> (r: Option<usize>)
    ensures
        r == (if mat_id < mat_maps@.len() {
            mat_maps@[mat_id as int]
        } else {
            None
        }),
{
    if mat_id < mat_maps.len() {
        mat_maps[mat_id]
    } else {
        None
    }
}

/// Paths of every length are estimated in both ways or in neither: wherever lights are sampled
/// the path may go on, the ray that it goes on with is traced, and what that ray meets is weighted
/// against the sampling; where no lights are sampled, it is not.
pub proof fn sampling_is_paired(
    limits: PathLimits,
    s: PathState,
    delta: bool,
    has_environment: bool,
    has_strata: bool,
)
    requires
        is_traced(limits, s),
    ensures
        ({
            let v = vertex_for(limits, s, Met::Surface { delta }, has_environment, has_strata);
            let next = scattered(s, delta);
            &&& v.extend ==> is_traced(limits, next)
            &&& v.sample_lights ==> v.extend
            &&& v.extend ==> (vertex_for(limits, next, Met::Light, has_environment, has_strata).count
                == Count::Emission { weighted: v.sample_lights })
            &&& v.extend ==> (vertex_for(
                limits,
                next,
                Met::Nothing,
                has_environment,
                has_strata,
            ).count == Count::Background { weighted: has_environment && v.sample_lights })
        }),
        ({
            let v = vertex_for(limits, s, Met::Particle, has_environment, has_strata);
            let next = scattered(s, false);
            &&& v.extend ==> is_traced(limits, next)
            &&& v.sample_lights == v.extend
            &&& v.extend ==> (vertex_for(limits, next, Met::Light, has_environment, has_strata).count
                == Count::Emission { weighted: true })
        }),
{
}

/// No path is longer than the limit: what is counted at a vertex that was traced, and what is
/// sampled from it, belongs to paths within it. A limit of zero counts nothing, a limit of one
/// only what is seen directly.
pub proof fn paths_are_within_the_limit(
    limits: PathLimits,
    s: PathState,
    met: Met,
    has_environment: bool,
    has_strata: bool,
)
    requires
        is_traced(limits, s),
    ensures
        s.bounce + 1 <= limits.max_depth,
        vertex_for(limits, s, met, has_environment, has_strata).sample_lights ==> s.bounce + 2
            <= limits.max_depth,
        vertex_for(limits, s, met, has_environment, has_strata).extend ==> s.bounce + 2
            <= limits.max_depth,
        limits.max_depth == 1 ==> s.bounce == 0 && !vertex_for(
            limits,
            s,
            met,
            has_environment,
            has_strata,
        ).extend,
{
}

/// Nothing is traced with a limit of zero.
pub proof fn nothing_is_traced_without_depth(limits: PathLimits, s: PathState)
    requires
        limits.max_depth == 0,
    ensures
        !is_traced(limits, s),
{
}

/// Strata are used at the first vertex only, and chance ends no path that is shorter than asked
/// for.
pub proof fn strata_and_roulette_have_their_place(
    limits: PathLimits,
    s: PathState,
    met: Met,
    has_environment: bool,
    has_strata: bool,
)
    ensures
        ({
            let v = vertex_for(limits, s, met, has_environment, has_strata);
            &&& v.stratified ==> s.bounce == 0 && has_strata && v.sample_lights
            &&& v.roulette ==> v.extend && s.bounce + 1 >= limits.rr_depth
            &&& v.extend && s.bounce + 1 >= limits.rr_depth ==> v.roulette
        }),
{
}

/// Whatever the throughput, the probability to go on lies between its bounds.
pub proof fn survival_is_bounded(p: u64)
    ensures
        at_most(LEAST_SURVIVAL, survival_of(p)),
        at_most(survival_of(p), MOST_SURVIVAL),
{
}

} // verus!
