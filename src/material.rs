use vstd::prelude::*;

verus! {

/// The kinds of body the renderer can shade; each kind has its own surface
/// material.
#[derive(Clone, Copy, Debug, PartialEq, Eq, Structural)]
pub enum CelestialBody {
    Sun,
    Earth,
    Jupiter,
    Mars,
    Saturn,
    Ring,
    Moon,
    LavaPlanet,
    IcePlanet,
    AlienPlanet,
}

/// Detail levels are expressed in thousandths: `1000` is full detail.
pub const DETAIL_FULL: u32 = 1000;

/// The lowest detail level that octave scaling honours (four tenths).
pub const DETAIL_FLOOR: u32 = 400;

/// The detail level after clamping into `[DETAIL_FLOOR, DETAIL_FULL]`.
pub open spec fn clamped_detail(detail: u32) -> int {
    if detail < DETAIL_FLOOR {
        DETAIL_FLOOR as int
    } else if detail > DETAIL_FULL {
        DETAIL_FULL as int
    } else {
        detail as int
    }
}

/// `floor(base * clamp(detail))`, kept within `[1, base]` (or `0` when `base` is `0`).
pub open spec fn scaled_octaves(base: u32, detail: u32) -> int {
    let scaled = (base as int) * clamped_detail(detail) / (DETAIL_FULL as int);
    if scaled < 1 {
        if base as int >= 1 { 1 } else { 0 }
    } else if scaled > base as int {
        base as int
    } else {
        scaled
    }
}

/// Maps a detail level (in thousandths) to an octave count: the level is clamped
/// into `[400, 1000]`, multiplied with `base` and floored, then kept in `[1, base]`.
pub fn scale_octaves(base: u32, detail_level: u32) -> (r: u32)
    ensures
        r as int == scaled_octaves(base, detail_level),
        base >= 1 ==> 1 <= r <= base,
{
    let detail: u64 = if detail_level < DETAIL_FLOOR {
        DETAIL_FLOOR as u64
    } else if detail_level > DETAIL_FULL {
        DETAIL_FULL as u64
    } else {
        detail_level as u64
    };
    assert((base as u64) * detail <= 0xffff_ffffu64 * 1000) by (nonlinear_arith)
        requires detail <= 1000;
    let scaled: u64 = (base as u64) * detail / (DETAIL_FULL as u64);
    assert(scaled <= base as u64) by (nonlinear_arith)
        requires scaled == (base as u64) * detail / 1000, detail <= 1000;
    let r: u64 = if scaled < 1 {
        if base >= 1 { 1 } else { 0 }
    } else {
        scaled
    };
    r as u32
}

} // verus!
