//! The settings of a render.

use crate::constants::{MAX_DEPTH, RR_DEPTH};
use crate::text::{chars_of, copied, is_word, lowered, to_lower};
use vstd::prelude::*;

verus! {

/// How colours are brought into the range of a display.
#[derive(Clone, Copy, Debug, PartialEq, Eq, Structural)]
pub enum Tonemap {
    /// Not at all: the name for it is `none`.
    Linear,
    /// The ACES film curve.
    Aces,
}

impl Tonemap {
    /// The tone mapping of a name, whatever its case.
    pub fn from_str(s: &str) -> (r: Option<Self>)
        ensures
            r == (if lowered(s@) == "none"@ {
                Some(Tonemap::Linear)
            } else if lowered(s@) == "aces"@ {
                Some(Tonemap::Aces)
            } else {
                None
            }),
    {
        let chars = chars_of(s);
        let low = to_lower(&chars);
        if is_word(&low, "none") {
            Some(Tonemap::Linear)
        } else if is_word(&low, "aces") {
            Some(Tonemap::Aces)
        } else {
            None
        }
    }
}

/// The settings of a render. Floating-point settings are held as the bits of the number.
#[derive(Clone, Debug)]
pub struct RenderConfig {
    /// Width in pixels.
    pub width: usize,
    /// Height in pixels.
    pub height: usize,
    /// Samples per pixel.
    pub spp: usize,
    /// The longest path.
    pub max_depth: usize,
    /// The path length from which paths are ended by chance.
    pub rr_depth: usize,
    /// The side of a tile in pixels.
    pub tile: usize,
    /// Whether checkpoints are written.
    pub checkpoint_enabled: bool,
    /// After how many tasks a checkpoint is written.
    pub checkpoint_every_tasks: usize,
    /// What a checkpoint must match to be resumed.
    pub scene_hash: u64,
    /// Where the image goes; its ending decides the format.
    pub output_path: String,
    /// The environment map.
    pub env_map_path: Option<String>,
    /// The scene file; without one the built-in scene is rendered.
    pub scene_path: Option<String>,
    /// Whether the image is denoised.
    pub denoise_enabled: bool,
    /// Whether sampling stops early where a pixel has settled.
    pub adaptive_enabled: bool,
    /// The least samples per pixel when it does.
    pub adaptive_min_spp: usize,
    /// When a pixel has settled: the bits of a relative standard deviation.
    pub adaptive_threshold: u64,
    /// Whether tiles are visited in Morton order.
    pub morton_enabled: bool,
    /// The seed of the random numbers.
    pub seed: u64,
    /// The tone mapping.
    pub tonemap: Tonemap,
    /// The exposure in stops: the bits of the number.
    pub exposure: u64,
}

/// The bits of 0.02.
pub const DEFAULT_ADAPTIVE_THRESHOLD: u64 = 0x3F94_7AE1_47AE_147B;

impl RenderConfig {
    /// The default settings.
    pub fn default() -> (r: Self)
        ensures
            r.width == 1920,
            r.height == 1080,
            r.spp == 512,
            r.max_depth == MAX_DEPTH,
            r.rr_depth == RR_DEPTH,
            r.tile == 16,
            !r.checkpoint_enabled,
            r.checkpoint_every_tasks == 128,
            r.scene_hash == 0x4859_5030_0000_0001,
            r.output_path@ == "hyperion_min.ppm"@,
            r.env_map_path is None,
            r.scene_path is None,
            r.denoise_enabled,
            !r.adaptive_enabled,
            r.adaptive_min_spp == 8,
            r.adaptive_threshold == DEFAULT_ADAPTIVE_THRESHOLD,
            r.morton_enabled,
            r.seed == 0,
            r.tonemap == Tonemap::Aces,
            r.exposure == 0,
    {
        RenderConfig {
            width: 1920,
            height: 1080,
            spp: 512,
            max_depth: MAX_DEPTH,
            rr_depth: RR_DEPTH,
            tile: 16,
            checkpoint_enabled: false,
            checkpoint_every_tasks: 128,
            scene_hash: 0x4859_5030_0000_0001,
            output_path: copied("hyperion_min.ppm"),
            env_map_path: None,
            scene_path: None,
            denoise_enabled: true,
            adaptive_enabled: false,
            adaptive_min_spp: 8,
            adaptive_threshold: DEFAULT_ADAPTIVE_THRESHOLD,
            morton_enabled: true,
            seed: 0,
            tonemap: Tonemap::Aces,
            exposure: 0,
        }
    }
}

/// The number of pixels above which a render needs a lot of memory.
pub const LARGE_PIXEL_COUNT: usize = 0x400_0000;

/// Whether a picture has so many pixels that rendering it needs a lot of memory.
pub fn is_large(width: usize, height: usize) -> (r: bool)
    ensures
        r == (width * height > LARGE_PIXEL_COUNT),
{
    if width == 0 {
        return false;
    }
    let most: usize = LARGE_PIXEL_COUNT / width;
    proof {
        vstd::arithmetic::div_mod::lemma_fundamental_div_mod(
            LARGE_PIXEL_COUNT as int,
            width as int,
        );
        let q = most as int;
        let m = LARGE_PIXEL_COUNT as int % width as int;
        if height <= most {
            assert(width * height <= width * q) by (nonlinear_arith)
                requires
                    height <= q,
                    width > 0,
            ;
        } else {
            assert(width * height >= width * q + width) by (nonlinear_arith)
                requires
                    height >= q + 1,
                    width > 0,
            ;
        }
    }
    height > most
}

} // verus!
