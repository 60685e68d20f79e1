//! The fixed-point color type shared by both pipeline stages.

use vstd::prelude::*;

verus! {

/// Exclusive upper bound of a hue coordinate: 360 degrees in fixed point.
pub const HUE_LIMIT: u32 = 360_000;

/// A point in the Oklch cylindrical color space, in fixed point:
/// `l` (lightness) and `c` (chroma) count thousandths of a unit, `h` (hue)
/// counts thousandths of a degree.
///
/// A lightness of one unit (`l == 1000`) is white; a chroma of zero is a pure
/// gray. Hue is an angle, so every coordinate is kept below 360 degrees.
#[derive(Clone, Copy, Debug, PartialEq, Eq, Structural)]
pub struct Color {
    pub l: u32,
    pub c: u32,
    pub h: u32,
}

impl Color {
    /// A color is well formed when its hue lies on the circle.
    pub open spec fn wf(self) -> bool {
        self.h < HUE_LIMIT
    }
}

/// Every color of the sequence is well formed.
pub open spec fn all_wf(s: Seq<Color>) -> bool {
    forall|i: int| 0 <= i < s.len() ==> #[trigger] s[i].wf()
}

/// Draw exactly `n` colors from the front of `colors`: `Some` of the first
/// `n` when at least that many are there, `None` otherwise. Extra colors are
/// ignored; too few are a failure the caller can see.
pub fn color_array(colors: &Vec<Color>, n: usize) -> (r: Option<Vec<Color>>)
    ensures
        colors@.len() >= n ==> (r matches Some(v) && v@ == colors@.take(n as int)),
        colors@.len() < n ==> r is None,
{
    if colors.len() < n {
        return None;
    }
    let mut out: Vec<Color> = Vec::new();
    let mut i: usize = 0;
    while i < n
        invariant
            i <= n <= colors@.len(),
            out@ == colors@.take(i as int),
        decreases n - i,
    {
        out.push(colors[i]);
        proof {
            assert(out@ =~= colors@.take(i + 1));
        }
        i = i + 1;
    }
    Some(out)
}

} // verus!
