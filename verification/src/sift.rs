//! SIFT extraction: configuration limits, the octave plan of the scale-space pyramid,
//! and the descriptor histogram layout.

use vstd::arithmetic::div_mod::{lemma_fundamental_div_mod, lemma_mod_multiples_vanish, lemma_small_mod};
use vstd::prelude::*;

verus! {

/// Length of a Lowe SIFT descriptor: `4 * 4 * 8`.
pub const DESCRIPTOR_LEN: usize = 128;

/// Spatial bins per descriptor side.
pub const DESCRIPTOR_WIDTH: usize = 4;

/// Orientation bins per descriptor cell.
pub const DESCRIPTOR_ORIENTATION_BINS: usize = 8;

/// Invalid SIFT configuration values.
#[derive(Clone, Debug, PartialEq)]
pub enum SiftConfigError {
    /// `intervals` must be at least 1.
    IntervalsTooSmall,
    /// A floating-point parameter was non-finite or outside its valid range.
    InvalidParameter(&'static str),
    /// `orientation_bins` must be at least 3.
    OrientationBinsTooSmall,
    /// `min_octave_size` must be at least 8.
    MinOctaveSizeTooSmall,
}

/// Default number of sampled scale intervals per octave.
pub const DEFAULT_INTERVALS: usize = 3;

/// Default number of bins of the orientation histogram.
pub const DEFAULT_ORIENTATION_BINS: usize = 36;

/// Default smallest octave dimension.
pub const DEFAULT_MIN_OCTAVE_SIZE: usize = 16;

/// The checks a SIFT configuration must pass. Counts are given as they are; each
/// real-valued parameter is given as the outcome of its own range check.
#[derive(Clone, Copy, Debug, PartialEq, Eq, Structural)]
pub struct SiftConfigChecks {
    /// Number of sampled scale intervals per octave.
    pub intervals: usize,
    /// Number of bins of the orientation histogram.
    pub orientation_bins: usize,
    /// Smallest octave dimension.
    pub min_octave_size: usize,
    /// Whether `sigma` is finite and positive.
    pub sigma_valid: bool,
    /// Whether `assumed_blur` is finite and non-negative.
    pub assumed_blur_valid: bool,
    /// Whether `contrast_threshold` is finite and positive.
    pub contrast_threshold_valid: bool,
    /// Whether `edge_threshold` is finite and positive.
    pub edge_threshold_valid: bool,
    /// Whether `orientation_peak_ratio` is finite, positive and at most 1.
    pub orientation_peak_ratio_valid: bool,
    /// Whether `orientation_window_factor` is finite and positive.
    pub orientation_window_factor_valid: bool,
    /// Whether `descriptor_scale` is finite and positive.
    pub descriptor_scale_valid: bool,
    /// Whether `descriptor_clipping` is finite and positive.
    pub descriptor_clipping_valid: bool,
}

impl Default for SiftConfigChecks {
    /// The checks of the default configuration: its counts, and the outcomes for its
    /// real-valued parameters (`sigma` 1.6, `assumed_blur` 0.5, `contrast_threshold` 0.03,
    /// `edge_threshold` 10, `orientation_peak_ratio` 0.8, `orientation_window_factor` 1.5,
    /// `descriptor_scale` 3 and `descriptor_clipping` 0.2), each of which is in range.
    fn default() -> (checks: Self)
        ensures
            checks == (SiftConfigChecks {
                intervals: DEFAULT_INTERVALS,
                orientation_bins: DEFAULT_ORIENTATION_BINS,
                min_octave_size: DEFAULT_MIN_OCTAVE_SIZE,
                sigma_valid: true,
                assumed_blur_valid: true,
                contrast_threshold_valid: true,
                edge_threshold_valid: true,
                orientation_peak_ratio_valid: true,
                orientation_window_factor_valid: true,
                descriptor_scale_valid: true,
                descriptor_clipping_valid: true,
            }),
    {
        SiftConfigChecks {
            intervals: DEFAULT_INTERVALS,
            orientation_bins: DEFAULT_ORIENTATION_BINS,
            min_octave_size: DEFAULT_MIN_OCTAVE_SIZE,
            sigma_valid: true,
            assumed_blur_valid: true,
            contrast_threshold_valid: true,
            edge_threshold_valid: true,
            orientation_peak_ratio_valid: true,
            orientation_window_factor_valid: true,
            descriptor_scale_valid: true,
            descriptor_clipping_valid: true,
        }
    }
}

/// The first failed check of a SIFT configuration: the counts first, then the real-valued
/// parameters in field order; `None` when all pass.
pub open spec fn sift_config_error(c: SiftConfigChecks) -> Option<SiftConfigError> {
    if c.intervals == 0 {
        Some(SiftConfigError::IntervalsTooSmall)
    } else if c.orientation_bins < 3 {
        Some(SiftConfigError::OrientationBinsTooSmall)
    } else if c.min_octave_size < 8 {
        Some(SiftConfigError::MinOctaveSizeTooSmall)
    } else if !c.sigma_valid {
        Some(SiftConfigError::InvalidParameter("sigma"))
    } else if !c.assumed_blur_valid {
        Some(SiftConfigError::InvalidParameter("assumed_blur"))
    } else if !c.contrast_threshold_valid {
        Some(SiftConfigError::InvalidParameter("contrast_threshold"))
    } else if !c.edge_threshold_valid {
        Some(SiftConfigError::InvalidParameter("edge_threshold"))
    } else if !c.orientation_peak_ratio_valid {
        Some(SiftConfigError::InvalidParameter("orientation_peak_ratio"))
    } else if !c.orientation_window_factor_valid {
        Some(SiftConfigError::InvalidParameter("orientation_window_factor"))
    } else if !c.descriptor_scale_valid {
        Some(SiftConfigError::InvalidParameter("descriptor_scale"))
    } else if !c.descriptor_clipping_valid {
        Some(SiftConfigError::InvalidParameter("descriptor_clipping"))
    } else {
        None
    }
}

impl SiftConfigChecks {
    /// Validates the configuration: `Ok` exactly when every check passes, otherwise the
    /// error of the first failed check.
    pub fn validate(&self) -> (result: Result<(), SiftConfigError>)
        ensures
            result is Ok <==> sift_config_error(*self) is None,
            result matches Err(e) ==> sift_config_error(*self) == Some(e),
    {
        if self.intervals == 0 {
            return Err(SiftConfigError::IntervalsTooSmall);
        }
        if self.orientation_bins < 3 {
            return Err(SiftConfigError::OrientationBinsTooSmall);
        }
        if self.min_octave_size < 8 {
            return Err(SiftConfigError::MinOctaveSizeTooSmall);
        }
        if !self.sigma_valid {
            return Err(SiftConfigError::InvalidParameter("sigma"));
        }
        if !self.assumed_blur_valid {
            return Err(SiftConfigError::InvalidParameter("assumed_blur"));
        }
        if !self.contrast_threshold_valid {
            return Err(SiftConfigError::InvalidParameter("contrast_threshold"));
        }
        if !self.edge_threshold_valid {
            return Err(SiftConfigError::InvalidParameter("edge_threshold"));
        }
        if !self.orientation_peak_ratio_valid {
            return Err(SiftConfigError::InvalidParameter("orientation_peak_ratio"));
        }
        if !self.orientation_window_factor_valid {
            return Err(SiftConfigError::InvalidParameter("orientation_window_factor"));
        }
        if !self.descriptor_scale_valid {
            return Err(SiftConfigError::InvalidParameter("descriptor_scale"));
        }
        if !self.descriptor_clipping_valid {
            return Err(SiftConfigError::InvalidParameter("descriptor_clipping"));
        }
        Ok(())
    }
}

/// One halving step of an image dimension; a single pixel stays a single pixel.
pub open spec fn halve(n: int) -> int {
    if n / 2 > 0 {
        n / 2
    } else {
        1
    }
}

/// The octave dimensions of a pyramid whose base is `width` by `height`: octaves are added
/// while both dimensions are at least `min_size`, each halving the previous one, and the
/// plan stops once halving would leave a dimension unchanged.
pub open spec fn octave_plan(width: int, height: int, min_size: int) -> Seq<(int, int)>
    decreases width + height,
{
    if width < min_size || height < min_size || width <= 0 || height <= 0 {
        seq![]
    } else if halve(width) == width || halve(height) == height {
        seq![(width, height)]
    } else {
        seq![(width, height)] + octave_plan(halve(width), halve(height), min_size)
    }
}

/// Laws of the octave plan: every octave is at least `min_size` in both dimensions, and
/// each octave after the first halves the one before it.
pub proof fn lemma_octave_plan(width: int, height: int, min_size: int)
    ensures
        forall|i: int|
            0 <= i < octave_plan(width, height, min_size).len() ==> #[trigger] octave_plan(width, height, min_size)[i].0
                >= min_size && octave_plan(width, height, min_size)[i].1 >= min_size,
        forall|i: int|
            0 < i < octave_plan(width, height, min_size).len() ==> #[trigger] octave_plan(width, height, min_size)[i]
                == (halve(octave_plan(width, height, min_size)[i - 1].0), halve(
                octave_plan(width, height, min_size)[i - 1].1,
            )),
        octave_plan(width, height, min_size).len() > 0 ==> octave_plan(width, height, min_size)[0]
            == (width, height),
        octave_plan(width, height, min_size).len() > 0 <==> (width >= min_size && height >= min_size
            && width > 0 && height > 0),
        forall|i: int|
            0 < i < octave_plan(width, height, min_size).len() ==> halve(
                #[trigger] octave_plan(width, height, min_size)[i - 1].0,
            ) != octave_plan(width, height, min_size)[i - 1].0 && halve(
                octave_plan(width, height, min_size)[i - 1].1,
            ) != octave_plan(width, height, min_size)[i - 1].1,
        octave_plan(width, height, min_size).len() > 0 ==> {
            let last = octave_plan(width, height, min_size).last();
            ||| halve(last.0) == last.0
            ||| halve(last.1) == last.1
            ||| halve(last.0) < min_size
            ||| halve(last.1) < min_size
        },
    decreases width + height,
{
    let plan = octave_plan(width, height, min_size);
    if width < min_size || height < min_size || width <= 0 || height <= 0 {
    } else if halve(width) == width || halve(height) == height {
    } else {
        let rest = octave_plan(halve(width), halve(height), min_size);
        lemma_octave_plan(halve(width), halve(height), min_size);
        assert forall|i: int| 0 < i < plan.len() implies #[trigger] plan[i] == (halve(plan[i - 1].0), halve(plan[i - 1].1)) by {
            assert(plan[i] == rest[i - 1]);
            if i > 1 {
                assert(plan[i - 1] == rest[i - 2]);
            }
        }
        assert forall|i: int| 0 <= i < plan.len() implies #[trigger] plan[i].0 >= min_size && plan[i].1 >= min_size by {
            if i > 0 {
                assert(plan[i] == rest[i - 1]);
            }
        }
        assert forall|i: int| 0 < i < plan.len() implies halve(#[trigger] plan[i - 1].0) != plan[i
            - 1].0 && halve(plan[i - 1].1) != plan[i - 1].1 by {
            if i > 1 {
                assert(plan[i - 1] == rest[i - 2]);
            }
        }
        if rest.len() > 0 {
            assert(plan.last() == rest.last());
        }
    }
}

/// Octave sizes that equal the octave plan inherit its laws.
proof fn lemma_octave_sizes_match_plan(sizes: Seq<(usize, usize)>, width: usize, height: usize, min_octave_size: usize)
    requires
        sizes.len() == octave_plan(width as int, height as int, min_octave_size as int).len(),
        forall|i: int|
            0 <= i < sizes.len() ==> (#[trigger] sizes[i].0 as int, sizes[i].1 as int) == octave_plan(
                width as int,
                height as int,
                min_octave_size as int,
            )[i],
    ensures
        sizes.len() > 0 <==> (width >= min_octave_size && height >= min_octave_size && width > 0
            && height > 0),
        sizes.len() > 0 ==> sizes[0] == (width, height),
        forall|i: int|
            0 <= i < sizes.len() ==> #[trigger] sizes[i].0 >= min_octave_size && sizes[i].1
                >= min_octave_size,
        forall|i: int|
            0 < i < sizes.len() ==> {
                let (w, h) = #[trigger] sizes[i - 1];
                &&& sizes[i].0 == (if w / 2 > 0 { w / 2 } else { 1 })
                &&& sizes[i].1 == (if h / 2 > 0 { h / 2 } else { 1 })
                &&& sizes[i].0 != w
                &&& sizes[i].1 != h
            },
        sizes.len() > 0 ==> {
            let (w, h) = sizes.last();
            let next_w: int = if w / 2 > 0 { (w / 2) as int } else { 1 };
            let next_h: int = if h / 2 > 0 { (h / 2) as int } else { 1 };
            ||| next_w == w
            ||| next_h == h
            ||| next_w < min_octave_size
            ||| next_h < min_octave_size
        },
{
    let plan = octave_plan(width as int, height as int, min_octave_size as int);
    lemma_octave_plan(width as int, height as int, min_octave_size as int);
    if sizes.len() > 0 {
        assert((sizes[0].0 as int, sizes[0].1 as int) == plan[0]);
        assert((sizes[sizes.len() - 1].0 as int, sizes[sizes.len() - 1].1 as int) == plan[plan.len() - 1]);
    }
    assert forall|i: int| 0 <= i < sizes.len() implies #[trigger] sizes[i].0 >= min_octave_size
        && sizes[i].1 >= min_octave_size by {
        assert((sizes[i].0 as int, sizes[i].1 as int) == plan[i]);
    }
    assert forall|i: int| 0 < i < sizes.len() implies {
        let (w, h) = #[trigger] sizes[i - 1];
        &&& sizes[i].0 == (if w / 2 > 0 { w / 2 } else { 1 })
        &&& sizes[i].1 == (if h / 2 > 0 { h / 2 } else { 1 })
        &&& sizes[i].0 != w
        &&& sizes[i].1 != h
    } by {
        assert((sizes[i].0 as int, sizes[i].1 as int) == plan[i]);
        assert((sizes[i - 1].0 as int, sizes[i - 1].1 as int) == plan[i - 1]);
    }
}

/// The dimensions of the octaves of a pyramid built on a `width` by `height` base.
pub fn octave_sizes(width: usize, height: usize, min_octave_size: usize) -> (sizes: Vec<(usize, usize)>)
    ensures
        sizes@.len() == octave_plan(width as int, height as int, min_octave_size as int).len(),
        forall|i: int|
            0 <= i < sizes@.len() ==> (#[trigger] sizes@[i].0 as int, sizes@[i].1 as int) == octave_plan(
                width as int,
                height as int,
                min_octave_size as int,
            )[i],
        sizes@.len() > 0 <==> (width >= min_octave_size && height >= min_octave_size && width > 0
            && height > 0),
        sizes@.len() > 0 ==> sizes@[0] == (width, height),
        forall|i: int|
            0 <= i < sizes@.len() ==> #[trigger] sizes@[i].0 >= min_octave_size && sizes@[i].1
                >= min_octave_size,
        forall|i: int|
            0 < i < sizes@.len() ==> {
                let (w, h) = #[trigger] sizes@[i - 1];
                &&& sizes@[i].0 == (if w / 2 > 0 { w / 2 } else { 1 })
                &&& sizes@[i].1 == (if h / 2 > 0 { h / 2 } else { 1 })
                &&& sizes@[i].0 != w
                &&& sizes@[i].1 != h
            },
        sizes@.len() > 0 ==> {
            let (w, h) = sizes@.last();
            let next_w: int = if w / 2 > 0 { (w / 2) as int } else { 1 };
            let next_h: int = if h / 2 > 0 { (h / 2) as int } else { 1 };
            ||| next_w == w
            ||| next_h == h
            ||| next_w < min_octave_size
            ||| next_h < min_octave_size
        },
{
    let mut sizes: Vec<(usize, usize)> = Vec::new();
    let mut w = width;
    let mut h = height;
    let ghost plan = octave_plan(width as int, height as int, min_octave_size as int);
    loop
        invariant
            plan == octave_plan(width as int, height as int, min_octave_size as int),
            sizes@.len() + octave_plan(w as int, h as int, min_octave_size as int).len() == plan.len(),
            forall|i: int|
                0 <= i < sizes@.len() ==> (#[trigger] sizes@[i].0 as int, sizes@[i].1 as int) == plan[i],
            forall|i: int|
                0 <= i < octave_plan(w as int, h as int, min_octave_size as int).len() ==> #[trigger] octave_plan(
                    w as int,
                    h as int,
                    min_octave_size as int,
                )[i] == plan[sizes@.len() + i],
        decreases w + h,
    {
        let ghost rest = octave_plan(w as int, h as int, min_octave_size as int);
        if w < min_octave_size || h < min_octave_size || w == 0 || h == 0 {
            proof {
                lemma_octave_sizes_match_plan(sizes@, width, height, min_octave_size);
            }
            return sizes;
        }
        let next_w = if w / 2 > 0 { w / 2 } else { 1 };
        let next_h = if h / 2 > 0 { h / 2 } else { 1 };
        proof {
            assert(rest[0] == (w as int, h as int));
            assert(rest[0] == plan[sizes@.len() as int]);
        }
        sizes.push((w, h));
        if next_w == w || next_h == h {
            proof {
                lemma_octave_sizes_match_plan(sizes@, width, height, min_octave_size);
            }
            return sizes;
        }
        proof {
            let tail = octave_plan(next_w as int, next_h as int, min_octave_size as int);
            assert forall|i: int| 0 <= i < tail.len() implies #[trigger] tail[i] == plan[sizes@.len() + i] by {
                assert(rest[i + 1] == tail[i]);
            }
        }
        w = next_w;
        h = next_h;
    }
}

/// Euclidean remainder of `v` by the number of orientation bins.
fn orientation_cell(v: isize) -> (r: isize)
    ensures
        r == (v as int) % (DESCRIPTOR_ORIENTATION_BINS as int),
        0 <= r < DESCRIPTOR_ORIENTATION_BINS,
{
    let t = v % 8;
    proof {
        if v >= 0 {
            assert(t == v % 8);
        } else {
            let a = -(v as int);
            let q = a % 8;
            assert(t == -q);
            lemma_fundamental_div_mod(a, 8);
            assert(v == 8 * (-(a / 8) - 1) + (8 - q)) by (nonlinear_arith)
                requires a == -(v as int), a == 8 * (a / 8) + q;
            lemma_mod_multiples_vanish(-(a / 8) - 1, 8 - q, 8);
            if q == 0 {
                lemma_mod_multiples_vanish(1, 0, 8);
                assert(v == 8 * (-(a / 8)) + 0) by (nonlinear_arith)
                    requires a == -(v as int), a == 8 * (a / 8) + q, q == 0;
                lemma_mod_multiples_vanish(-(a / 8), 0, 8);
            } else {
                lemma_small_mod((8 - q) as nat, 8);
            }
        }
    }
    if t < 0 {
        t + 8
    } else {
        t
    }
}

/// Position of histogram cell `(row, column, orientation)` in a descriptor.
pub open spec fn descriptor_index(row: int, column: int, orientation: int) -> int {
    (row * DESCRIPTOR_WIDTH as int + column) * DESCRIPTOR_ORIENTATION_BINS as int + orientation
}

/// The descriptor cells that trilinear interpolation from base cell `(r0, c0, o0)`
/// reaches: entry `4 * rr + 2 * cc + oo` is cell `(r0 + rr, c0 + cc, (o0 + oo) mod 8)`
/// when row and column fall inside the grid, and `None` otherwise.
pub fn trilinear_cells(r0: isize, c0: isize, o0: isize) -> (cells: [Option<usize>; 8])
    requires
        r0 < isize::MAX,
        c0 < isize::MAX,
        o0 < isize::MAX,
    ensures
        forall|n: int|
            0 <= n < 8 ==> {
                let row = r0 + n / 4;
                let column = c0 + (n / 2) % 2;
                let orientation = (o0 + n % 2) % DESCRIPTOR_ORIENTATION_BINS as int;
                #[trigger] cells[n] == if 0 <= row < DESCRIPTOR_WIDTH && 0 <= column < DESCRIPTOR_WIDTH {
                    Some(descriptor_index(row, column, orientation) as usize)
                } else {
                    None
                }
            },
        forall|n: int| 0 <= n < 8 ==> (#[trigger] cells[n] matches Some(i) ==> i < DESCRIPTOR_LEN),
{
    let mut cells: [Option<usize>; 8] = [None; 8];
    let mut n: usize = 0;
    while n < 8
        invariant
            n <= 8,
            r0 < isize::MAX,
            c0 < isize::MAX,
            o0 < isize::MAX,
            forall|m: int|
                0 <= m < n ==> {
                    let row = r0 + m / 4;
                    let column = c0 + (m / 2) % 2;
                    let orientation = (o0 + m % 2) % DESCRIPTOR_ORIENTATION_BINS as int;
                    #[trigger] cells[m] == if 0 <= row < DESCRIPTOR_WIDTH && 0 <= column < DESCRIPTOR_WIDTH {
                        Some(descriptor_index(row, column, orientation) as usize)
                    } else {
                        None
                    }
                },
            forall|m: int| 0 <= m < n ==> (#[trigger] cells[m] matches Some(i) ==> i < DESCRIPTOR_LEN),
        decreases 8 - n,
    {
        let rb = r0 + (n / 4) as isize;
        let cb = c0 + ((n / 2) % 2) as isize;
        let raw = o0 + (n % 2) as isize;
        let ob = orientation_cell(raw);
        let cell = if 0 <= rb && rb < 4 && 0 <= cb && cb < 4 {
            proof {
                assert(0 <= (rb * 4 + cb) * 8 + ob < 128) by (nonlinear_arith)
                    requires 0 <= rb < 4, 0 <= cb < 4, 0 <= ob < 8;
            }
            Some(((rb as usize) * 4 + cb as usize) * 8 + ob as usize)
        } else {
            None
        };
        cells[n] = cell;
        n += 1;
    }
    cells
}

} // verus!
