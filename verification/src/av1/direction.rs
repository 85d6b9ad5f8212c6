//! Directional intra prediction.
//!
//! The directional modes project the reconstructed edge samples into the block
//! along an angle. Before projection the edges may be smoothed and doubled in
//! resolution; the block size, the angle and whether a neighbouring block used a
//! smooth mode decide which. The projection interpolates between the two edge
//! samples that a fractional position lands between. Recursive filter-intra
//! prediction, which also reads these edges, stands here too.
use super::predict::square;
use super::transform::lemma_raster;
use crate::math::{abs, abs_i32, clamp, clamp_i32, lemma_p2_mono, lemma_p2_pos, lemma_p2_values, min, p2, pow2_i32, round2, round2_signed, shr_i32};
use vstd::prelude::*;

verus! {

/// Degrees in one step of an angle's coded offset.
pub const ANGLE_STEP: i32 = 3;

/// The base angle of each intra mode, in degrees.
pub const MODE_TO_ANGLE: [i32; 13] = [0, 90, 180, 45, 135, 113, 157, 203, 67, 0, 0, 0, 0];

/// The edge smoothing kernels, by strength.
pub const INTRA_EDGE_KERNEL: [[i32; 5]; 3] = [[0, 4, 8, 4, 0], [0, 5, 6, 5, 0], [2, 4, 4, 4, 2]];

/// The slope of each angle, by degrees.
pub const DR_INTRA_DERIVATIVE: [i32; 90] = [
    0, 0, 0, 1023, 0, 0, 547, 0, 0, 372, 0, 0, 0, 0, 273, 0, 0, 215, 0, 0, 178, 0, 0, 151, 0, 0, 132, 0, 0, 116, 0, 0,
    102, 0, 0, 0, 90, 0, 0, 80, 0, 0, 71, 0, 0, 64, 0, 0, 57, 0, 0, 51, 0, 0, 45, 0, 0, 0, 40, 0, 0, 35, 0, 0, 31, 0, 0,
    27, 0, 0, 23, 0, 0, 19, 0, 0, 15, 0, 0, 0, 0, 11, 0, 0, 7, 0, 0, 3, 0, 0,
];

/// The base angle of a directional mode in degrees; none for another mode.
pub fn mode_base_angle(mode: usize) -> (r: Option<i32>)
    ensures
        r == if 1 <= mode <= 8 {
            Some(MODE_TO_ANGLE@[mode as int])
        } else {
            None
        },
        r is Some ==> 45 <= r->0 <= 203,
{
    if 1 <= mode && mode <= 8 {
        Some(MODE_TO_ANGLE[mode])
    } else {
        None
    }
}

/// The samples of a row above or of a column to the left, by signed index: index
/// -1 is the corner, and doubling the resolution fills index -2.
pub struct Edge {
    data: [i32; 320],
}

/// The sample at index `i` of an edge, zero outside it.
pub open spec fn look(e: Seq<i32>, i: int) -> int {
    if 0 <= i + 16 < e.len() {
        e[i + 16] as int
    } else {
        0
    }
}

/// An edge with another sample at index `i`; unchanged for an index outside it.
pub open spec fn placed(e: Seq<i32>, i: int, value: i32) -> Seq<i32> {
    if 0 <= i + 16 < e.len() {
        e.update(i + 16, value)
    } else {
        e
    }
}

/// An edge of 320 samples.
pub open spec fn sampled(e: Seq<i32>) -> bool {
    e.len() == 320 && forall|i: int| 0 <= i < 320 ==> 0 <= #[trigger] e[i] <= 0xFFFF
}

impl View for Edge {
    type V = Seq<i32>;

    closed spec fn view(&self) -> Seq<i32> {
        self.data@
    }
}

impl Default for Edge {
    fn default() -> (r: Edge)
        ensures
            r@ == Seq::new(320, |i: int| 0i32),
    {
        Edge::new()
    }
}

impl Edge {
    /// An edge of zeros.
    pub fn new() -> (r: Edge)
        ensures
            r@ == Seq::new(320, |i: int| 0i32),
            sampled(r@),
    {
        let r = Edge { data: [0; 320] };
        assert(r@ =~= Seq::new(320, |i: int| 0i32));
        r
    }

    /// The sample at index `i`, zero outside the edge.
    pub fn get(&self, i: isize) -> (r: i32)
        requires
            i <= isize::MAX - 16,
        ensures
            r == look(self@, i as int),
            self@.len() == 320,
    {
        let at = i + 16;
        if 0 <= at && at < 320 {
            self.data[at as usize]
        } else {
            0
        }
    }

    /// Set the sample at index `i`; a write outside the edge is dropped.
    pub fn set(&mut self, i: isize, value: i32)
        requires
            i <= isize::MAX - 16,
        ensures
            final(self)@ == placed(old(self)@, i as int, value),
            final(self)@.len() == 320,
    {
        let at = i + 16;
        if 0 <= at && at < 320 {
            self.data[at as usize] = value;
        }
    }
}

/// The slope of an angle, zero outside the table.
pub open spec fn slope(angle: int) -> int {
    if 0 <= angle < 90 {
        DR_INTRA_DERIVATIVE@[angle] as int
    } else {
        0
    }
}

/// The slope of an angle.
fn derivative(angle: i32) -> (r: i32)
    ensures
        r == slope(angle as int),
        0 <= r <= 1023,
{
    if 0 <= angle && angle < 90 {
        DR_INTRA_DERIVATIVE[angle as usize]
    } else {
        0
    }
}

/// How strongly an edge is smoothed: by the sum of the block's sides, whether a
/// neighbour is smooth, and the angle's distance from the edge's axis.
pub open spec fn smoothing(blk: int, smooth: bool, d: int) -> int {
    if !smooth {
        if blk <= 8 {
            if d >= 56 {
                1
            } else {
                0
            }
        } else if blk <= 16 {
            if d >= 40 {
                1
            } else {
                0
            }
        } else if blk <= 24 {
            if d >= 32 {
                3
            } else if d >= 16 {
                2
            } else if d >= 8 {
                1
            } else {
                0
            }
        } else if blk <= 32 {
            if d >= 32 {
                3
            } else if d >= 4 {
                2
            } else {
                1
            }
        } else {
            3
        }
    } else if blk <= 8 {
        if d >= 64 {
            2
        } else if d >= 40 {
            1
        } else {
            0
        }
    } else if blk <= 16 {
        if d >= 48 {
            2
        } else if d >= 20 {
            1
        } else {
            0
        }
    } else if blk <= 24 {
        if d >= 4 {
            3
        } else {
            0
        }
    } else {
        3
    }
}

/// The longest side of a block whose projections a machine integer holds: the
/// steepest slope is 1023 64ths of a sample.
pub const MAX_SIDE: i32 = 2099202;

/// How strongly an edge is smoothed.
fn edge_filter_strength(w: i32, h: i32, filter_type: bool, delta: i32) -> (r: usize)
    requires
        0 <= w <= MAX_SIDE,
        0 <= h <= MAX_SIDE,
        delta > i32::MIN,
    ensures
        r == smoothing(w + h, filter_type, abs(delta as int)),
        r <= 3,
{
    let d = abs_i32(delta);
    let blk = w + h;
    if !filter_type {
        if blk <= 8 {
            if d >= 56 {
                1
            } else {
                0
            }
        } else if blk <= 16 {
            if d >= 40 {
                1
            } else {
                0
            }
        } else if blk <= 24 {
            if d >= 32 {
                3
            } else if d >= 16 {
                2
            } else if d >= 8 {
                1
            } else {
                0
            }
        } else if blk <= 32 {
            if d >= 32 {
                3
            } else if d >= 4 {
                2
            } else {
                1
            }
        } else {
            3
        }
    } else if blk <= 8 {
        if d >= 64 {
            2
        } else if d >= 40 {
            1
        } else {
            0
        }
    } else if blk <= 16 {
        if d >= 48 {
            2
        } else if d >= 20 {
            1
        } else {
            0
        }
    } else if blk <= 24 {
        if d >= 4 {
            3
        } else {
            0
        }
    } else {
        3
    }
}

/// Whether an edge is doubled: the angle is off the edge's axis by less than 40
/// degrees, and the block is small.
pub open spec fn doubles(blk: int, smooth: bool, d: int) -> bool {
    0 < d < 40 && blk <= if smooth {
        8int
    } else {
        16
    }
}

/// Whether an edge is doubled.
fn edge_upsample(w: i32, h: i32, filter_type: bool, delta: i32) -> (r: bool)
    requires
        0 <= w <= MAX_SIDE,
        0 <= h <= MAX_SIDE,
        delta > i32::MIN,
    ensures
        r == doubles(w + h, filter_type, abs(delta as int)),
{
    let d = abs_i32(delta);
    let limit: i32 = if filter_type {
        8
    } else {
        16
    };
    0 < d && d < 40 && w + h <= limit
}

/// The weighted sum of the five samples around index `i - 1`, of the first `sz`
/// from the corner on; a sample past either end is the end's.
pub open spec fn kernel_sum(e: Seq<i32>, sz: int, strength: int, i: int, taps: int) -> int
    decreases taps,
{
    if taps <= 0 {
        0
    } else {
        kernel_sum(e, sz, strength, i, taps - 1) + INTRA_EDGE_KERNEL@[strength - 1]@[taps - 1] * look(
            e,
            clamp(i - 3 + taps, 0, sz - 1) - 1,
        )
    }
}

/// An edge with its first `sz` samples from the corner on smoothed, the corner kept.
pub open spec fn smoothed(e: Seq<i32>, sz: int, strength: int) -> Seq<i32> {
    if strength == 0 {
        e
    } else {
        Seq::new(
            e.len(),
            |k: int|
                if 16 <= k < 15 + sz {
                    ((kernel_sum(e, sz, strength, k - 15, 5) + 8) / 16) as i32
                } else {
                    e[k]
                },
        )
    }
}

/// Smoothing keeps samples samples.
proof fn lemma_kernel_sum(e: Seq<i32>, sz: int, strength: int, i: int)
    requires
        sampled(e),
        1 <= strength <= 3,
    ensures
        0 <= kernel_sum(e, sz, strength, i, 1) <= 0x8_0000,
        0 <= kernel_sum(e, sz, strength, i, 2) <= 0x10_0000,
        0 <= kernel_sum(e, sz, strength, i, 3) <= 0x10_0000,
        0 <= kernel_sum(e, sz, strength, i, 4) <= 0x10_0000,
        0 <= kernel_sum(e, sz, strength, i, 5) <= 16 * 0xFFFF,
{
    reveal_with_fuel(kernel_sum, 6);
    let k = INTRA_EDGE_KERNEL@[strength - 1]@;
    assert(k[0] + k[1] + k[2] + k[3] + k[4] == 16);
    assert(0 <= k[0] && 0 <= k[1] && 0 <= k[2] && 0 <= k[3] && 0 <= k[4]);
    assert(k[0] <= 2);
    let at = |n: int| look(e, clamp(i - 2 + n, 0, sz - 1) - 1);
    assert forall|n: int| 0 <= n < 5 implies 0 <= #[trigger] at(n) <= 0xFFFF && 0 <= k[n] * at(n) <= k[n] * 0xFFFF by {
        let (x, y) = (k[n] as int, at(n));
        assert(0 <= x * y <= x * 0xFFFF) by (nonlinear_arith)
            requires
                0 <= x,
                0 <= y <= 0xFFFF,
        ;
    }
    assert(at(0) >= 0 && at(1) >= 0 && at(2) >= 0 && at(3) >= 0 && at(4) >= 0);
}

/// Smooth the first `sz` samples of an edge from the corner on.
fn intra_edge_filter(buf: &mut Edge, sz: i32, strength: usize)
    requires
        sampled(old(buf)@),
        sz <= 2 * MAX_SIDE + 1,
        strength <= 3,
    ensures
        final(buf)@ == smoothed(old(buf)@, sz as int, strength as int),
        sampled(final(buf)@),
{
    let ghost start = buf@;
    if strength == 0 || sz <= 0 {
        assert(buf@ =~= smoothed(start, sz as int, strength as int));
        return;
    }
    let copy = Edge { data: buf.data };
    let mut i: i32 = 1;
    while i < sz
        invariant
            1 <= i <= sz <= 2 * MAX_SIDE + 1,
            1 <= strength <= 3,
            copy@ == start,
            sampled(start),
            buf@.len() == 320,
            forall|k: int| 16 <= k < 15 + i && k < 320 ==> #[trigger] buf@[k] == smoothed(start, sz as int, strength as int)[k] && 0 <= buf@[k] <= 0xFFFF,
            forall|k: int| 0 <= k < 320 && !(16 <= k < 15 + i) ==> #[trigger] buf@[k] == start[k],
        decreases sz - i,
    {
        proof {
            lemma_kernel_sum(start, sz as int, strength as int, i as int);
        }
        let mut sum: i32 = 0;
        let mut j: usize = 0;
        while j < 5
            invariant
                j <= 5,
                1 <= i < sz <= 2 * MAX_SIDE + 1,
                1 <= strength <= 3,
                copy@ == start,
                sampled(start),
                sum == kernel_sum(start, sz as int, strength as int, i as int, j as int),
                0 <= sum <= 0x10_0000,
            decreases 5 - j,
        {
            proof {
                lemma_kernel_sum(start, sz as int, strength as int, i as int);
            }
            let k = clamp_i32(i - 2 + j as i32, 0, sz - 1);
            let v = copy.get((k - 1) as isize);
            let tap = INTRA_EDGE_KERNEL[strength - 1][j];
            proof {
                let (x, y) = (tap as int, v as int);
                assert(0 <= x * y <= 0x10_0000) by (nonlinear_arith)
                    requires
                        0 <= x <= 8,
                        0 <= y <= 0xFFFF,
                ;
            }
            sum = sum + tap * v;
            j = j + 1;
        }
        let v = (sum + 8) / 16;
        assert(v == ((kernel_sum(start, sz as int, strength as int, i as int, 5) + 8) / 16) as i32);
        buf.set((i - 1) as isize, v);
        i = i + 1;
    }
    assert(buf@ =~= smoothed(start, sz as int, strength as int));
}

/// Sample `i` of an edge's first `n` samples extended by one at each end, from
/// the corner on.
pub open spec fn widened(e: Seq<i32>, n: int, i: int) -> int {
    if i == 0 {
        look(e, -1)
    } else if i < n + 2 {
        look(e, i - 2)
    } else {
        look(e, n - 1)
    }
}

/// The sample between samples `i` and `i + 1` of an edge.
pub open spec fn between(e: Seq<i32>, n: int, i: int, top: int) -> int {
    clamp(
        round2(-widened(e, n, i) + 9 * widened(e, n, i + 1) + 9 * widened(e, n, i + 2) - widened(e, n, i + 3), 4),
        0,
        top,
    )
}

/// An edge with its first `n` samples doubled in resolution: the samples stand at
/// even indices, those between them at odd ones. Without samples it stays as it is.
pub open spec fn doubled(e: Seq<i32>, n: int, top: int) -> Seq<i32> {
    Seq::new(
        e.len(),
        |k: int|
            if k == 14 && n > 0 {
                look(e, -1) as i32
            } else if 15 <= k <= 14 + 2 * n {
                if k % 2 == 0 {
                    widened(e, n, (k - 16) / 2 + 2) as i32
                } else {
                    between(e, n, (k - 15) / 2, top) as i32
                }
            } else {
                e[k]
            },
    )
}

/// Double the resolution of the first `num_px` samples of an edge.
fn intra_edge_upsample(buf: &mut Edge, num_px: i32, max: i32)
    requires
        sampled(old(buf)@),
        0 <= num_px <= 64,
        0 <= max <= 0xFFFF,
    ensures
        final(buf)@ == doubled(old(buf)@, num_px as int, max as int),
        sampled(final(buf)@),
{
    let ghost start = buf@;
    let copy = Edge { data: buf.data };
    proof {
        lemma_p2_values();
    }
    if num_px == 0 {
        assert(buf@ =~= doubled(start, num_px as int, max as int));
        return;
    }
    buf.set(-2, copy.get(-1));
    let mut i: i32 = 0;
    while i < num_px
        invariant
            0 <= i <= num_px <= 64,
            0 <= max <= 0xFFFF,
            copy@ == start,
            sampled(start),
            p2(4) == 16,
            p2(3) == 8,
            buf@.len() == 320,
            forall|k: int| 14 <= k < 15 + 2 * i ==> #[trigger] buf@[k] == doubled(start, num_px as int, max as int)[k] && 0 <= buf@[k] <= 0xFFFF,
            forall|k: int| 0 <= k < 320 && !(14 <= k < 15 + 2 * i) ==> #[trigger] buf@[k] == start[k],
        decreases num_px - i,
    {
        let d0 = copy.get(
            if i == 0 {
                -1
            } else {
                (i - 2) as isize
            },
        );
        let d1 = copy.get((i - 1) as isize);
        let d2 = copy.get(i as isize);
        let d3 = copy.get(
            if i + 1 < num_px {
                (i + 1) as isize
            } else {
                (num_px - 1) as isize
            },
        );
        assert(d0 == widened(start, num_px as int, i as int));
        assert(d1 == widened(start, num_px as int, i + 1));
        assert(d2 == widened(start, num_px as int, i + 2));
        assert(d3 == widened(start, num_px as int, i + 3));
        let mix = shr_i32(-d0 + 9 * d1 + 9 * d2 - d3 + 8, 4);
        let v = clamp_i32(mix, 0, max);
        assert(v == between(start, num_px as int, i as int, max as int));
        buf.set((2 * i - 1) as isize, v);
        buf.set((2 * i) as isize, d2);
        proof {
            let k = 15 + 2 * i;
            assert((k - 15) / 2 == i && k % 2 == 1);
            assert((k + 1 - 16) / 2 == i && (k + 1) % 2 == 0);
        }
        i = i + 1;
    }
    assert(buf@ =~= doubled(start, num_px as int, max as int));
}

/// A directional prediction, besides the edges.
pub struct Direction {
    /// The angle in degrees.
    pub angle: int,
    /// The block's width.
    pub w: int,
    /// The block's height.
    pub h: int,
    /// Whether the column to the left is reconstructed.
    pub have_left: bool,
    /// Whether the row above is reconstructed.
    pub have_above: bool,
    /// Whether a neighbouring block is smooth.
    pub smooth: bool,
    /// Whether edges are filtered at all.
    pub tools: bool,
    /// How many samples of the frame there are to the right, this block's included.
    pub avail_above: int,
    /// How many samples of the frame there are below, this block's included.
    pub avail_left: int,
    /// The greatest sample.
    pub top: int,
}

impl Direction {
    /// Whether the edges are smoothed: they are, off both axes.
    pub open spec fn smooths(self) -> bool {
        self.tools && self.angle != 90 && self.angle != 180
    }

    /// Whether the corner is blended: between the axes, in a large block.
    pub open spec fn blends_corner(self) -> bool {
        self.smooths() && 90 < self.angle < 180 && self.w + self.h >= 24
    }

    /// The corner sample: blended with its neighbours on the edges, or kept.
    pub open spec fn corner(self, above: Seq<i32>, left: Seq<i32>) -> i32 {
        round2(look(left, 0) * 5 + look(above, -1) * 6 + look(above, 0) * 5, 4) as i32
    }

    /// The row above after its corner is blended and it is smoothed.
    pub open spec fn smooth_above(self, above: Seq<i32>, left: Seq<i32>) -> Seq<i32> {
        let e = if self.blends_corner() {
            placed(above, -1, self.corner(above, left))
        } else {
            above
        };
        if self.smooths() && self.have_above {
            smoothed(
                e,
                min(self.w, self.avail_above) + (if self.angle < 90 {
                    self.h
                } else {
                    0
                }) + 1,
                smoothing(self.w + self.h, self.smooth, abs(self.angle - 90)),
            )
        } else {
            e
        }
    }

    /// The column to the left after its corner is blended and it is smoothed.
    pub open spec fn smooth_left(self, above: Seq<i32>, left: Seq<i32>) -> Seq<i32> {
        let e = if self.blends_corner() {
            placed(left, -1, self.corner(above, left))
        } else {
            left
        };
        if self.smooths() && self.have_left {
            smoothed(
                e,
                min(self.h, self.avail_left) + (if self.angle > 180 {
                    self.w
                } else {
                    0
                }) + 1,
                smoothing(self.w + self.h, self.smooth, abs(self.angle - 180)),
            )
        } else {
            e
        }
    }

    /// Whether the row above is doubled.
    pub open spec fn doubles_above(self) -> bool {
        self.tools && doubles(self.w + self.h, self.smooth, abs(self.angle - 90))
    }

    /// Whether the column to the left is doubled.
    pub open spec fn doubles_left(self) -> bool {
        self.tools && doubles(self.w + self.h, self.smooth, abs(self.angle - 180))
    }

    /// The row above as it is projected.
    pub open spec fn ready_above(self, above: Seq<i32>, left: Seq<i32>) -> Seq<i32> {
        let e = self.smooth_above(above, left);
        if self.doubles_above() {
            doubled(
                e,
                self.w + if self.angle < 90 {
                    self.h
                } else {
                    0
                },
                self.top,
            )
        } else {
            e
        }
    }

    /// The column to the left as it is projected.
    pub open spec fn ready_left(self, above: Seq<i32>, left: Seq<i32>) -> Seq<i32> {
        let e = self.smooth_left(above, left);
        if self.doubles_left() {
            doubled(
                e,
                self.h + if self.angle > 180 {
                    self.w
                } else {
                    0
                },
                self.top,
            )
        } else {
            e
        }
    }

    /// The slope along rows.
    pub open spec fn dx(self) -> int {
        if self.angle < 90 {
            slope(self.angle)
        } else if 90 < self.angle < 180 {
            slope(180 - self.angle)
        } else {
            0
        }
    }

    /// The slope along columns.
    pub open spec fn dy(self) -> int {
        if 90 < self.angle < 180 {
            slope(self.angle - 90)
        } else if self.angle > 180 {
            slope(270 - self.angle)
        } else {
            0
        }
    }

    /// The sample that row `i`, column `j` projects to on the prepared edges.
    pub open spec fn projected(self, above: Seq<i32>, left: Seq<i32>, i: int, j: int) -> int {
        let ua = self.doubles_above();
        let ul = self.doubles_left();
        if self.angle < 90 {
            let at = (i + 1) * self.dx();
            let base = whole(at, ua) + scaled(j, ua);
            let last = scaled(self.w + self.h - 1, ua);
            if base < last {
                interpolated(above, base, part(at, ua))
            } else {
                look(above, last)
            }
        } else if 90 < self.angle < 180 {
            let at = 64 * j - (i + 1) * self.dx();
            if whole(at, ua) >= -scaled(1, ua) {
                interpolated(above, whole(at, ua), part(at, ua))
            } else {
                let down = 64 * i - (j + 1) * self.dy();
                interpolated(left, whole(down, ul), part(down, ul))
            }
        } else if self.angle > 180 {
            let at = (j + 1) * self.dy();
            interpolated(left, whole(at, ul) + scaled(i, ul), part(at, ul))
        } else if self.angle == 90 {
            look(above, j)
        } else {
            look(left, i)
        }
    }

    /// The predicted sample at row `i`, column `j`, from the raw edges.
    pub open spec fn predicted(self, above: Seq<i32>, left: Seq<i32>, i: int, j: int) -> int {
        clamp(self.projected(self.ready_above(above, left), self.ready_left(above, left), i, j), 0, self.top)
    }
}

/// `x`, doubled on a doubled edge.
pub open spec fn scaled(x: int, double: bool) -> int {
    if double {
        2 * x
    } else {
        x
    }
}

/// The whole index of a position in 64ths of a sample.
pub open spec fn whole(at: int, double: bool) -> int {
    if double {
        at / 32
    } else {
        at / 64
    }
}

/// The fraction of a position, in 32nds.
pub open spec fn part(at: int, double: bool) -> int {
    if double {
        at % 32
    } else {
        at / 2 % 32
    }
}

/// The sample `shift` 32nds of the way from index `base` to the next.
pub open spec fn interpolated(e: Seq<i32>, base: int, shift: int) -> int {
    round2(look(e, base) * (32 - shift) + look(e, base + 1) * shift, 5)
}

/// Interpolation keeps to the range of samples.
proof fn lemma_interpolated(a: int, b: int, shift: int)
    requires
        0 <= a <= 0xFFFF,
        0 <= b <= 0xFFFF,
        0 <= shift < 32,
    ensures
        0 <= a * (32 - shift) <= 32 * 0xFFFF,
        0 <= b * shift <= 32 * 0xFFFF,
        0 <= a * (32 - shift) + b * shift <= 32 * 0xFFFF,
{
    assert(0 <= a * (32 - shift) <= (32 - shift) * 0xFFFF && 0 <= b * shift <= shift * 0xFFFF) by (nonlinear_arith)
        requires
            0 <= a <= 0xFFFF,
            0 <= b <= 0xFFFF,
            0 <= shift < 32,
    ;
}

/// The sample `shift` 32nds of the way from index `base` to the next.
fn interpolate(e: &Edge, base: i32, shift: i32) -> (r: i32)
    requires
        sampled(e@),
        -0x1000_0000 <= base <= 0x1000_0000,
        0 <= shift < 32,
    ensures
        r == interpolated(e@, base as int, shift as int),
        0 <= r <= 0xFFFF,
{
    let a = e.get(base as isize);
    let b = e.get(base as isize + 1);
    proof {
        lemma_p2_values();
        lemma_interpolated(a as int, b as int, shift as int);
    }
    let sum = a * (32 - shift) + b * shift;
    (sum + 16) / 32
}

/// The whole index of a position.
fn whole_of(at: i32, double: bool) -> (r: i32)
    ensures
        r == whole(at as int, double),
{
    proof {
        lemma_p2_values();
    }
    if double {
        shr_i32(at, 5)
    } else {
        shr_i32(at, 6)
    }
}

/// The fraction of a position.
fn part_of(at: i32, double: bool) -> (r: i32)
    ensures
        r == part(at as int, double),
        0 <= r < 32,
{
    proof {
        lemma_p2_values();
    }
    let x = if double {
        at
    } else {
        shr_i32(at, 1)
    };
    ((x as i64 + 0x1_0000_0000) % 32) as i32
}

/// The direction that the parameters of `predict_directional` describe.
pub open spec fn direction(
    p_angle: i32,
    w: usize,
    h: usize,
    have_left: bool,
    have_above: bool,
    filter_type: bool,
    enable_edge_filter: bool,
    avail_above_px: i32,
    avail_left_px: i32,
    bit_depth: u8,
) -> Direction {
    Direction {
        angle: p_angle as int,
        w: w as int,
        h: h as int,
        have_left,
        have_above,
        smooth: filter_type,
        tools: enable_edge_filter,
        avail_above: avail_above_px as int,
        avail_left: avail_left_px as int,
        top: p2(bit_depth as int) - 1,
    }
}

/// Blend the corner and smooth both edges.
fn smooth_edges(
    p_angle: i32,
    above: &mut Edge,
    left: &mut Edge,
    w: i32,
    h: i32,
    have_left: bool,
    have_above: bool,
    filter_type: bool,
    avail_above_px: i32,
    avail_left_px: i32,
    Ghost(d): Ghost<Direction>,
)
    requires
        sampled(old(above)@),
        sampled(old(left)@),
        0 <= w <= MAX_SIDE,
        0 <= h <= MAX_SIDE,
        i32::MIN + 180 < p_angle,
        d.angle == p_angle,
        d.w == w,
        d.h == h,
        d.have_left == have_left,
        d.have_above == have_above,
        d.smooth == filter_type,
        d.avail_above == avail_above_px,
        d.avail_left == avail_left_px,
        d.smooths(),
    ensures
        final(above)@ == d.smooth_above(old(above)@, old(left)@),
        final(left)@ == d.smooth_left(old(above)@, old(left)@),
        sampled(final(above)@),
        sampled(final(left)@),
{
    let ghost (a, l) = (above@, left@);
    if p_angle > 90 && p_angle < 180 && w + h >= 24 {
        proof {
            lemma_p2_values();
        }
        let sum = left.get(0) * 5 + above.get(-1) * 6 + above.get(0) * 5;
        let corner = (sum + 8) / 16;
        assert(corner == d.corner(a, l));
        above.set(-1, corner);
        left.set(-1, corner);
    }
    if have_above {
        let strength = edge_filter_strength(w, h, filter_type, p_angle - 90);
        let reach = if w < avail_above_px {
            w
        } else {
            avail_above_px
        };
        let more = if p_angle < 90 {
            h
        } else {
            0
        };
        intra_edge_filter(above, reach + more + 1, strength);
    }
    if have_left {
        let strength = edge_filter_strength(w, h, filter_type, p_angle - 180);
        let reach = if h < avail_left_px {
            h
        } else {
            avail_left_px
        };
        let more = if p_angle > 180 {
            w
        } else {
            0
        };
        intra_edge_filter(left, reach + more + 1, strength);
    }
}

/// The sample that row `i`, column `j` projects to.
fn project(
    p_angle: i32,
    above: &Edge,
    left: &Edge,
    w: i32,
    h: i32,
    ua: bool,
    ul: bool,
    dx: i32,
    dy: i32,
    i: i32,
    j: i32,
    Ghost(d): Ghost<Direction>,
) -> (r: i32)
    requires
        sampled(above@),
        sampled(left@),
        0 <= w <= MAX_SIDE,
        0 <= h <= MAX_SIDE,
        0 <= i < h,
        0 <= j < w,
        d.angle == p_angle,
        d.w == w,
        d.h == h,
        ua == d.doubles_above(),
        ul == d.doubles_left(),
        dx == d.dx(),
        dy == d.dy(),
        0 <= dx <= 1023,
        0 <= dy <= 1023,
    ensures
        r == d.projected(above@, left@, i as int, j as int),
        0 <= r <= 0xFFFF,
{
    proof {
        assert(0 <= (i + 1) * dx <= MAX_SIDE * 1023) by (nonlinear_arith)
            requires
                0 <= i < MAX_SIDE,
                0 <= dx <= 1023,
        ;
        assert(0 <= (j + 1) * dy <= MAX_SIDE * 1023) by (nonlinear_arith)
            requires
                0 <= j < MAX_SIDE,
                0 <= dy <= 1023,
        ;
    }
    if p_angle < 90 {
        let at = (i + 1) * dx;
        let base = whole_of(at, ua) + if ua {
            2 * j
        } else {
            j
        };
        let last = if ua {
            2 * (w + h - 1)
        } else {
            w + h - 1
        };
        if base < last {
            interpolate(above, base, part_of(at, ua))
        } else {
            above.get(last as isize)
        }
    } else if p_angle > 90 && p_angle < 180 {
        let at = 64 * j - (i + 1) * dx;
        let base = whole_of(at, ua);
        let first: i32 = if ua {
            -2
        } else {
            -1
        };
        if base >= first {
            interpolate(above, base, part_of(at, ua))
        } else {
            let down = 64 * i - (j + 1) * dy;
            interpolate(left, whole_of(down, ul), part_of(down, ul))
        }
    } else if p_angle > 180 {
        let at = (j + 1) * dy;
        let base = whole_of(at, ul) + if ul {
            2 * i
        } else {
            i
        };
        interpolate(left, base, part_of(at, ul))
    } else if p_angle == 90 {
        above.get(j as isize)
    } else {
        left.get(i as isize)
    }
}

/// Predict a directional block, row by row.
///
/// `above` and `left` hold the raw edges: index -1 is the shared corner, the
/// indices from 0 on the row and the column. `avail_above_px` and `avail_left_px`
/// say how far the frame extends, which limits how many samples are smoothed.
/// The edges are left smoothed and doubled.
pub fn predict_directional(
    p_angle: i32,
    above: &mut Edge,
    left: &mut Edge,
    w: usize,
    h: usize,
    have_left: bool,
    have_above: bool,
    filter_type: bool,
    enable_edge_filter: bool,
    avail_above_px: i32,
    avail_left_px: i32,
    bit_depth: u8,
) -> (r: Vec<u16>)
    requires
        sampled(old(above)@),
        sampled(old(left)@),
        0 <= w <= MAX_SIDE,
        0 <= h <= MAX_SIDE,
        2 * (w * h) <= isize::MAX,
        enable_edge_filter ==> i32::MIN + 180 < p_angle,
        bit_depth <= 16,
    ensures
        ({
            let d = direction(
                p_angle,
                w,
                h,
                have_left,
                have_above,
                filter_type,
                enable_edge_filter,
                avail_above_px,
                avail_left_px,
                bit_depth,
            );
            &&& r@.len() == w * h
            &&& forall|k: int|
                0 <= k < w * h ==> #[trigger] r@[k] == d.predicted(old(above)@, old(left)@, k / w as int, k % w as int)
            &&& final(above)@ == d.ready_above(old(above)@, old(left)@)
            &&& final(left)@ == d.ready_left(old(above)@, old(left)@)
        }),
{
    let ghost d = direction(
        p_angle,
        w,
        h,
        have_left,
        have_above,
        filter_type,
        enable_edge_filter,
        avail_above_px,
        avail_left_px,
        bit_depth,
    );
    let ghost (a, l) = (above@, left@);
    let wi = w as i32;
    let hi = h as i32;
    proof {
        lemma_p2_values();
        lemma_p2_mono(bit_depth as int, 16);
        lemma_p2_pos(bit_depth as int);
        assert(0 <= w * h) by (nonlinear_arith);
    }
    let max = pow2_i32(bit_depth as u32) - 1;
    if enable_edge_filter && p_angle != 90 && p_angle != 180 {
        smooth_edges(
            p_angle,
            above,
            left,
            wi,
            hi,
            have_left,
            have_above,
            filter_type,
            avail_above_px,
            avail_left_px,
            Ghost(d),
        );
    }
    assert(above@ == d.smooth_above(a, l));
    assert(left@ == d.smooth_left(a, l));
    let ua = enable_edge_filter && edge_upsample(wi, hi, filter_type, p_angle - 90);
    if ua {
        let more = if p_angle < 90 {
            hi
        } else {
            0
        };
        intra_edge_upsample(above, wi + more, max);
    }
    let ul = enable_edge_filter && edge_upsample(wi, hi, filter_type, p_angle - 180);
    if ul {
        let more = if p_angle > 180 {
            wi
        } else {
            0
        };
        intra_edge_upsample(left, hi + more, max);
    }
    assert(above@ == d.ready_above(a, l));
    assert(left@ == d.ready_left(a, l));
    let dx = if p_angle < 90 {
        derivative(p_angle)
    } else if p_angle > 90 && p_angle < 180 {
        derivative(180 - p_angle)
    } else {
        0
    };
    let dy = if p_angle > 90 && p_angle < 180 {
        derivative(p_angle - 90)
    } else if p_angle > 180 {
        derivative(270 - p_angle)
    } else {
        0
    };
    let area = w * h;
    let mut pred: Vec<u16> = Vec::new();
    let mut k: usize = 0;
    while k < area
        invariant
            k <= area,
            area == w * h,
            0 <= w <= MAX_SIDE,
            0 <= h <= MAX_SIDE,
            wi == w,
            hi == h,
            d.w == w,
            d.h == h,
            d.angle == p_angle,
            d.top == max,
            0 <= max <= 0xFFFF,
            sampled(above@),
            sampled(left@),
            above@ == d.ready_above(a, l),
            left@ == d.ready_left(a, l),
            ua == d.doubles_above(),
            ul == d.doubles_left(),
            dx == d.dx(),
            dy == d.dy(),
            0 <= dx <= 1023,
            0 <= dy <= 1023,
            pred@.len() == k,
            forall|n: int| 0 <= n < k ==> #[trigger] pred@[n] == d.predicted(a, l, n / w as int, n % w as int),
        decreases area - k,
    {
        proof {
            assert(w > 0 && 0 <= k / w < h && 0 <= k % w < w) by (nonlinear_arith)
                requires
                    0 <= k < w * h,
                    w >= 0,
            ;
        }
        let value = project(
            p_angle,
            above,
            left,
            wi,
            hi,
            ua,
            ul,
            dx,
            dy,
            (k / w) as i32,
            (k % w) as i32,
            Ghost(d),
        );
        pred.push(clamp_i32(value, 0, max) as u16);
        k = k + 1;
    }
    pred
}

/// Predict a directional block of four by four.
pub fn predict_directional_4x4(
    p_angle: i32,
    above: &mut Edge,
    left: &mut Edge,
    have_left: bool,
    have_above: bool,
    filter_type: bool,
    enable_edge_filter: bool,
    avail_above_px: i32,
    avail_left_px: i32,
    bit_depth: u8,
) -> (r: [[u16; 4]; 4])
    requires
        sampled(old(above)@),
        sampled(old(left)@),
        enable_edge_filter ==> i32::MIN + 180 < p_angle,
        bit_depth <= 16,
    ensures
        ({
            let d = direction(
                p_angle,
                4,
                4,
                have_left,
                have_above,
                filter_type,
                enable_edge_filter,
                avail_above_px,
                avail_left_px,
                bit_depth,
            );
            &&& forall|i: int, j: int|
                0 <= i < 4 && 0 <= j < 4 ==> #[trigger] r@[i]@[j] == d.predicted(old(above)@, old(left)@, i, j)
            &&& final(above)@ == d.ready_above(old(above)@, old(left)@)
            &&& final(left)@ == d.ready_left(old(above)@, old(left)@)
        }),
{
    let flat = predict_directional(
        p_angle,
        above,
        left,
        4,
        4,
        have_left,
        have_above,
        filter_type,
        enable_edge_filter,
        avail_above_px,
        avail_left_px,
        bit_depth,
    );
    let pred = square(&flat);
    proof {
        let d = direction(
            p_angle,
            4,
            4,
            have_left,
            have_above,
            filter_type,
            enable_edge_filter,
            avail_above_px,
            avail_left_px,
            bit_depth,
        );
        assert forall|i: int, j: int| 0 <= i < 4 && 0 <= j < 4 implies #[trigger] pred@[i]@[j] == d.predicted(
            old(above)@,
            old(left)@,
            i,
            j,
        ) by {
            let k = 4 * i + j;
            assert(k / 4 == i && k % 4 == j);
            assert(flat@[k] == d.predicted(old(above)@, old(left)@, k / 4, k % 4));
        }
    }
    pred
}

/// Along the vertical axis a block is a copy of the row above, along the
/// horizontal axis of the column to the left, whatever the edge tools.
pub proof fn lemma_axes_copy(d: Direction, above: Seq<i32>, left: Seq<i32>, i: int, j: int)
    ensures
        d.angle == 90 ==> d.predicted(above, left, i, j) == clamp(look(above, j), 0, d.top),
        d.angle == 180 ==> d.predicted(above, left, i, j) == clamp(look(left, i), 0, d.top),
{
}

/// The recursive filter's weights, by mode and place in a sub-block of four by
/// two: the corner, four samples above, two to the left.
pub const INTRA_FILTER_TAPS: [[[i32; 7]; 8]; 5] = [
    [
        [-6, 10, 0, 0, 0, 12, 0],
        [-5, 2, 10, 0, 0, 9, 0],
        [-3, 1, 1, 10, 0, 7, 0],
        [-3, 1, 1, 2, 10, 5, 0],
        [-4, 6, 0, 0, 0, 2, 12],
        [-3, 2, 6, 0, 0, 2, 9],
        [-3, 2, 2, 6, 0, 2, 7],
        [-3, 1, 2, 2, 6, 3, 5],
    ],
    [
        [-10, 16, 0, 0, 0, 10, 0],
        [-6, 0, 16, 0, 0, 6, 0],
        [-4, 0, 0, 16, 0, 4, 0],
        [-2, 0, 0, 0, 16, 2, 0],
        [-10, 16, 0, 0, 0, 0, 10],
        [-6, 0, 16, 0, 0, 0, 6],
        [-4, 0, 0, 16, 0, 0, 4],
        [-2, 0, 0, 0, 16, 0, 2],
    ],
    [
        [-8, 8, 0, 0, 0, 16, 0],
        [-8, 0, 8, 0, 0, 16, 0],
        [-8, 0, 0, 8, 0, 16, 0],
        [-8, 0, 0, 0, 8, 16, 0],
        [-4, 4, 0, 0, 0, 0, 16],
        [-4, 0, 4, 0, 0, 0, 16],
        [-4, 0, 0, 4, 0, 0, 16],
        [-4, 0, 0, 0, 4, 0, 16],
    ],
    [
        [-2, 8, 0, 0, 0, 10, 0],
        [-1, 3, 8, 0, 0, 6, 0],
        [-1, 2, 3, 8, 0, 4, 0],
        [0, 1, 2, 3, 8, 2, 0],
        [-1, 4, 0, 0, 0, 3, 10],
        [-1, 3, 4, 0, 0, 4, 6],
        [-1, 2, 3, 4, 0, 4, 4],
        [-1, 2, 2, 3, 4, 3, 3],
    ],
    [
        [-12, 14, 0, 0, 0, 14, 0],
        [-10, 0, 14, 0, 0, 12, 0],
        [-9, 0, 0, 14, 0, 11, 0],
        [-8, 0, 0, 0, 14, 10, 0],
        [-10, 12, 0, 0, 0, 0, 14],
        [-9, 1, 12, 0, 0, 0, 12],
        [-8, 0, 0, 12, 0, 1, 11],
        [-7, 0, 0, 1, 12, 1, 9],
    ],
];

/// The weight of input `k` for place `at` of a sub-block.
pub open spec fn tap(mode: int, at: int, k: int) -> int {
    INTRA_FILTER_TAPS@[min(mode, 4)]@[at]@[k] as int
}

/// The weighted sum of seven inputs, rounded to sixteenths and limited to samples.
#[verifier::opaque]
pub open spec fn mixed(mode: int, at: int, p: Seq<int>, top: int) -> int {
    clamp(
        round2_signed(
            tap(mode, at, 0) * p[0] + tap(mode, at, 1) * p[1] + tap(mode, at, 2) * p[2] + tap(mode, at, 3) * p[3] + tap(
                mode,
                at,
                4,
            ) * p[4] + tap(mode, at, 5) * p[5] + tap(mode, at, 6) * p[6],
            4,
        ),
        0,
        top,
    )
}

/// The recursively filtered sample at row `r`, column `c`. Each sub-block of four
/// by two reads the samples around it: from the edges at the block's border, and
/// from the sub-blocks already filtered elsewhere.
#[verifier::opaque]
pub open spec fn recursive(mode: int, above: Seq<i32>, left: Seq<i32>, top: int, r: int, c: int) -> int
    decreases r / 2, c / 4,
    when r >= 0 && c >= 0
{
    let (y, x) = (2 * (r / 2), 4 * (c / 4));
    let corner = if y == 0 {
        look(above, x - 1)
    } else if x == 0 {
        look(left, y - 1)
    } else {
        recursive(mode, above, left, top, y - 1, x - 1)
    };
    let a0 = if y == 0 {
        look(above, x)
    } else {
        recursive(mode, above, left, top, y - 1, x)
    };
    let a1 = if y == 0 {
        look(above, x + 1)
    } else {
        recursive(mode, above, left, top, y - 1, x + 1)
    };
    let a2 = if y == 0 {
        look(above, x + 2)
    } else {
        recursive(mode, above, left, top, y - 1, x + 2)
    };
    let a3 = if y == 0 {
        look(above, x + 3)
    } else {
        recursive(mode, above, left, top, y - 1, x + 3)
    };
    let l0 = if x == 0 {
        look(left, y)
    } else {
        recursive(mode, above, left, top, y, x - 1)
    };
    let l1 = if x == 0 {
        look(left, y + 1)
    } else {
        recursive(mode, above, left, top, y + 1, x - 1)
    };
    mixed(mode, 4 * (r % 2) + c % 4, seq![corner, a0, a1, a2, a3, l0, l1], top)
}

/// The seven inputs of the sub-block at row `y`, column `x`.
pub open spec fn inputs(mode: int, above: Seq<i32>, left: Seq<i32>, top: int, y: int, x: int) -> Seq<int> {
    Seq::new(
        7,
        |k: int|
            if k < 5 {
                if y == 0 {
                    look(above, x + k - 1)
                } else if x == 0 && k == 0 {
                    look(left, y - 1)
                } else {
                    recursive(mode, above, left, top, y - 1, x + k - 1)
                }
            } else if x == 0 {
                look(left, y + k - 5)
            } else {
                recursive(mode, above, left, top, y + k - 5, x - 1)
            },
    )
}

/// A sample is the mix of its sub-block's inputs.
pub proof fn lemma_recursive(mode: int, above: Seq<i32>, left: Seq<i32>, top: int, y: int, x: int, i: int, j: int)
    requires
        y >= 0,
        x >= 0,
        y % 2 == 0,
        x % 4 == 0,
        0 <= i < 2,
        0 <= j < 4,
    ensures
        recursive(mode, above, left, top, y + i, x + j) == mixed(
            mode,
            4 * i + j,
            inputs(mode, above, left, top, y, x),
            top,
        ),
{
    let (r, c) = (y + i, x + j);
    assert(2 * (r / 2) == y && 4 * (c / 4) == x && r % 2 == i && c % 4 == j);
    let p = inputs(mode, above, left, top, y, x);
    assert(p =~= seq![p[0], p[1], p[2], p[3], p[4], p[5], p[6]]);
    assert(recursive(mode, above, left, top, r, c) == mixed(mode, 4 * i + j, seq![p[0], p[1], p[2], p[3], p[4], p[5], p[6]], top)) by {
        reveal(recursive);
    }
}

/// Every weight is small.
proof fn lemma_tap(mode: int, at: int, k: int)
    requires
        0 <= mode,
        0 <= at < 8,
        0 <= k < 7,
    ensures
        -16 <= tap(mode, at, k) <= 16,
{
    let m = min(mode, 4);
    let row = INTRA_FILTER_TAPS@[m]@[at]@;
    assert(-16 <= row[0] <= 16 && -16 <= row[1] <= 16 && -16 <= row[2] <= 16 && -16 <= row[3] <= 16 && -16 <= row[4]
        <= 16 && -16 <= row[5] <= 16 && -16 <= row[6] <= 16);
}

/// The weights of a place add up to sixteen.
proof fn lemma_taps_sum(mode: int, at: int)
    requires
        0 <= mode,
        0 <= at < 8,
    ensures
        tap(mode, at, 0) + tap(mode, at, 1) + tap(mode, at, 2) + tap(mode, at, 3) + tap(mode, at, 4) + tap(mode, at, 5)
            + tap(mode, at, 6) == 16,
{
}

/// A weighted sum of seven samples is small.
proof fn lemma_mix_bound(t: int, p: int)
    requires
        -16 <= t <= 16,
        0 <= p <= 0xFFFF,
    ensures
        -0x10_0000 <= t * p <= 0x10_0000,
{
    assert(-0x10_0000 <= t * p <= 0x10_0000) by (nonlinear_arith)
        requires
            -16 <= t <= 16,
            0 <= p <= 0xFFFF,
    ;
}

/// The mix of seven inputs for one place of a sub-block.
fn mix(mode: usize, at: usize, p: &[i32; 7], max: i32) -> (r: i32)
    requires
        at < 8,
        0 <= max <= 0xFFFF,
        forall|k: int| 0 <= k < 7 ==> 0 <= #[trigger] p@[k] <= 0xFFFF,
    ensures
        r == mixed(mode as int, at as int, p@.map_values(|x: i32| x as int), max as int),
        0 <= r <= max,
{
    let m: usize = if mode < 4 {
        mode
    } else {
        4
    };
    let row = INTRA_FILTER_TAPS[m][at];
    proof {
        reveal(mixed);
        lemma_p2_values();
        assert forall|k: int| 0 <= k < 7 implies -16 <= #[trigger] row@[k] <= 16 && -0x10_0000 <= row@[k] * p@[k]
            <= 0x10_0000 by {
            lemma_tap(mode as int, at as int, k);
            lemma_mix_bound(row@[k] as int, p@[k] as int);
        }
        assert(row@[0] <= 16 && row@[1] <= 16 && row@[2] <= 16 && row@[3] <= 16 && row@[4] <= 16 && row@[5] <= 16
            && row@[6] <= 16);
    }
    let sum = row[0] * p[0] + row[1] * p[1] + row[2] * p[2] + row[3] * p[3] + row[4] * p[4] + row[5] * p[5] + row[6]
        * p[6];
    let rounded = if sum >= 0 {
        (sum + 8) / 16
    } else {
        -((-sum + 8) / 16)
    };
    proof {
        let q = p@.map_values(|x: i32| x as int);
        assert(q[0] == p@[0] && q[1] == p@[1] && q[2] == p@[2] && q[3] == p@[3] && q[4] == p@[4] && q[5] == p@[5]
            && q[6] == p@[6]);
        assert(sum == tap(mode as int, at as int, 0) * q[0] + tap(mode as int, at as int, 1) * q[1] + tap(
            mode as int,
            at as int,
            2,
        ) * q[2] + tap(mode as int, at as int, 3) * q[3] + tap(mode as int, at as int, 4) * q[4] + tap(
            mode as int,
            at as int,
            5,
        ) * q[5] + tap(mode as int, at as int, 6) * q[6]);
        assert(rounded == round2_signed(sum as int, 4));
    }
    clamp_i32(rounded, 0, max)
}

/// The samples that are filtered before the sub-block at row `y`, column `x`.
spec fn ready(r: int, c: int, y: int, x: int) -> bool {
    r < y || (r < y + 2 && c < x)
}

/// The first samples of `pred`, in the order of the sub-blocks, are filtered.
spec fn filtered_to(
    pred: Seq<i32>,
    mode: int,
    above: Seq<i32>,
    left: Seq<i32>,
    w: int,
    h: int,
    top: int,
    y: int,
    x: int,
) -> bool {
    forall|r: int, c: int|
        0 <= r < h && 0 <= c < 4 * (w / 4) && ready(r, c, y, x) ==> 0 <= #[trigger] pred[r * w + c] <= top && pred[r * w
            + c] == recursive(mode, above, left, top, r, c)
}

/// Gather the seven inputs of the sub-block at row `y`, column `x`.
fn gather(
    pred: &Vec<i32>,
    above: &Edge,
    left: &Edge,
    w: usize,
    h: usize,
    y: usize,
    x: usize,
    Ghost(mode): Ghost<int>,
    Ghost(top): Ghost<int>,
) -> (p: [i32; 7])
    requires
        sampled(above@),
        sampled(left@),
        w <= isize::MAX / 2,
        h <= isize::MAX / 2,
        y + 2 <= h,
        x + 4 <= w,
        x % 4 == 0,
        pred@.len() == w * h,
        0 <= top <= 0xFFFF,
        filtered_to(pred@, mode, above@, left@, w as int, h as int, top, y as int, x as int),
    ensures
        p@.map_values(|v: i32| v as int) == inputs(mode, above@, left@, top, y as int, x as int),
        forall|k: int| 0 <= k < 7 ==> 0 <= #[trigger] p@[k] <= 0xFFFF,
{
    let mut p = [0i32; 7];
    let mut k: usize = 0;
    while k < 7
        invariant
            k <= 7,
            sampled(above@),
            sampled(left@),
            w <= isize::MAX / 2,
            h <= isize::MAX / 2,
            y + 2 <= h,
            x + 4 <= w,
            x % 4 == 0,
            pred@.len() == w * h,
            0 <= top <= 0xFFFF,
            filtered_to(pred@, mode, above@, left@, w as int, h as int, top, y as int, x as int),
            forall|n: int|
                0 <= n < k ==> 0 <= #[trigger] p@[n] <= 0xFFFF && p@[n] == inputs(
                    mode,
                    above@,
                    left@,
                    top,
                    y as int,
                    x as int,
                )[n],
        decreases 7 - k,
    {
        let v = if k < 5 && y == 0 {
            above.get(x as isize + k as isize - 1)
        } else if k == 0 && x == 0 {
            left.get(y as isize - 1)
        } else if k >= 5 && x == 0 {
            left.get((y + k - 5) as isize)
        } else {
            let r = if k < 5 {
                y - 1
            } else {
                y + k - 5
            };
            let c = if k < 5 {
                x + k - 1
            } else {
                x - 1
            };
            proof {
                lemma_raster(r as int, c as int, w as int, h as int);
                assert(r * w >= 0) by (nonlinear_arith)
                    requires
                        r >= 0,
                        w >= 0,
                ;
                assert(pred@.len() == pred.len());
                assert(ready(r as int, c as int, y as int, x as int));
                assert(pred@[r * w + c] == recursive(mode, above@, left@, top, r as int, c as int));
            }
            pred[r * w + c]
        };
        p[k] = v;
        k = k + 1;
    }
    assert(p@.map_values(|v: i32| v as int) =~= inputs(mode, above@, left@, top, y as int, x as int));
    p
}

/// Predict a block with the recursive filter, row by row. Columns past the last
/// multiple of four and a last odd row stay zero.
pub fn predict_filter_intra(
    filter_mode: usize,
    above: &Edge,
    left: &Edge,
    w: usize,
    h: usize,
    bit_depth: u8,
) -> (r: Vec<u16>)
    requires
        sampled(above@),
        sampled(left@),
        4 * (w * h) <= isize::MAX,
        bit_depth <= 16,
    ensures
        r@.len() == w * h,
        forall|k: int|
            0 <= k < w * h ==> #[trigger] r@[k] == if k / (w as int) < 2 * (h / 2) && k % (w as int) < 4 * (w / 4) {
                recursive(
                    filter_mode as int,
                    above@,
                    left@,
                    p2(bit_depth as int) - 1,
                    k / w as int,
                    k % w as int,
                )
            } else {
                0
            },
{
    proof {
        lemma_p2_values();
        lemma_p2_mono(bit_depth as int, 16);
        lemma_p2_pos(bit_depth as int);
        assert(0 <= w * h) by (nonlinear_arith);
    }
    let max = pow2_i32(bit_depth as u32) - 1;
    let ghost top = max as int;
    let ghost mode = filter_mode as int;
    let area = w * h;
    let mut pred: Vec<i32> = vec![0; area];
    proof {
        assert forall|r: int, c: int| 0 <= r < h && 0 <= c < w implies #[trigger] pred@[r * w + c] == 0 by {
            lemma_raster(r, c, w as int, h as int);
        }
    }
    let mut y: usize = 0;
    while h - y >= 2
        invariant
            y <= h,
            y % 2 == 0,
            4 * (w * h) <= isize::MAX,
            sampled(above@),
            sampled(left@),
            0 <= max <= 0xFFFF,
            max == top,
            mode == filter_mode,
            pred@.len() == w * h,
            filtered_to(pred@, mode, above@, left@, w as int, h as int, top, y as int, 0),
            forall|r: int, c: int|
                0 <= r < h && 0 <= c < w && (r >= y || c >= 4 * (w / 4)) ==> #[trigger] pred@[r * w + c] == 0,
        decreases h - y,
    {
        let mut x: usize = 0;
        while w - x >= 4
            invariant
                y + 2 <= h,
                y % 2 == 0,
                x % 4 == 0,
                x <= w,
                4 * (w * h) <= isize::MAX,
                sampled(above@),
                sampled(left@),
                0 <= max <= 0xFFFF,
                max == top,
                mode == filter_mode,
                pred@.len() == w * h,
                filtered_to(pred@, mode, above@, left@, w as int, h as int, top, y as int, x as int),
                forall|r: int, c: int|
                    0 <= r < h && 0 <= c < w && (r >= y + 2 || c >= 4 * (w / 4) || (r >= y && c >= x))
                        ==> #[trigger] pred@[r * w + c] == 0,
            decreases w - x,
        {
            proof {
                assert(2 * w <= w * h && 4 * h <= w * h) by (nonlinear_arith)
                    requires
                        2 <= h,
                        4 <= w,
                ;
            }
            let p = gather(&pred, above, left, w, h, y, x, Ghost(mode), Ghost(top));
            let ghost before = pred@;
            let mut n: usize = 0;
            while n < 8
                invariant
                    n <= 8,
                    y + 2 <= h <= isize::MAX / 2,
                    y % 2 == 0,
                    x % 4 == 0,
                    x + 4 <= w <= isize::MAX / 2,
                    0 <= max <= 0xFFFF,
                    max == top,
                    mode == filter_mode,
                    pred@.len() == w * h,
                    before.len() == w * h,
                    p@.map_values(|v: i32| v as int) == inputs(mode, above@, left@, top, y as int, x as int),
                    forall|k: int| 0 <= k < 7 ==> 0 <= #[trigger] p@[k] <= 0xFFFF,
                    forall|r: int, c: int|
                        #![trigger pred@[r * w + c]]
                        0 <= r < h && 0 <= c < w ==> if y <= r < y + 2 && x <= c < x + 4 && 4 * (r - y) + (c - x) < n {
                            0 <= pred@[r * w + c] <= top && pred@[r * w + c] == recursive(mode, above@, left@, top, r, c)
                        } else {
                            pred@[r * w + c] == before[r * w + c]
                        },
                decreases 8 - n,
            {
                let i = n / 4;
                let j = n % 4;
                let v = mix(filter_mode, n, &p, max);
                proof {
                    lemma_recursive(mode, above@, left@, top, y as int, x as int, i as int, j as int);
                    lemma_raster(y + i, x + j, w as int, h as int);
                    assert((y + i) * w >= 0) by (nonlinear_arith)
                        requires
                            y + i >= 0,
                            w >= 0,
                    ;
                    assert(pred@.len() == pred.len());
                }
                let ghost here = pred@;
                let at = (y + i) * w + x + j;
                pred[at] = v;
                proof {
                    assert forall|r: int, c: int|
                        #![trigger pred@[r * w + c]]
                        0 <= r < h && 0 <= c < w implies if y <= r < y + 2 && x <= c < x + 4 && 4 * (r - y) + (c - x) < n
                        + 1 {
                        0 <= pred@[r * w + c] <= top && pred@[r * w + c] == recursive(mode, above@, left@, top, r, c)
                    } else {
                        pred@[r * w + c] == before[r * w + c]
                    } by {
                        lemma_raster(r, c, w as int, h as int);
                        if r == y + i && c == x + j {
                        } else {
                            assert(r * w + c != at);
                            assert(pred@[r * w + c] == here[r * w + c]);
                        }
                    }
                }
                n = n + 1;
            }
            proof {
                assert forall|r: int, c: int|
                    0 <= r < h && 0 <= c < 4 * (w / 4) && ready(r, c, y as int, x + 4) implies 0 <= #[trigger] pred@[r * w
                    + c] <= top && pred@[r * w + c] == recursive(mode, above@, left@, top, r, c) by {
                    if !(y <= r < y + 2 && x <= c < x + 4) {
                        assert(ready(r, c, y as int, x as int));
                        assert(before[r * w + c] == recursive(mode, above@, left@, top, r, c));
                    }
                }
                assert forall|r: int, c: int|
                    0 <= r < h && 0 <= c < w && (r >= y + 2 || c >= 4 * (w / 4) || (r >= y && c >= x + 4))
                        implies #[trigger] pred@[r * w + c] == 0 by {
                    assert(before[r * w + c] == 0);
                }
            }
            x = x + 4;
        }
        proof {
            assert(x == 4 * (w / 4));
            assert forall|r: int, c: int|
                0 <= r < h && 0 <= c < 4 * (w / 4) && ready(r, c, y + 2, 0) implies 0 <= #[trigger] pred@[r * w + c]
                <= top && pred@[r * w + c] == recursive(mode, above@, left@, top, r, c) by {
                assert(ready(r, c, y as int, x as int));
            }
        }
        y = y + 2;
    }
    assert(y == 2 * (h / 2));
    let mut out: Vec<u16> = Vec::new();
    let mut k: usize = 0;
    while k < area
        invariant
            k <= area,
            area == w * h,
            y == 2 * (h / 2),
            y <= h,
            0 <= max <= 0xFFFF,
            max == top,
            pred@.len() == w * h,
            filtered_to(pred@, mode, above@, left@, w as int, h as int, top, y as int, 0),
            forall|r: int, c: int|
                0 <= r < h && 0 <= c < w && (r >= y || c >= 4 * (w / 4)) ==> #[trigger] pred@[r * w + c] == 0,
            out@.len() == k,
            forall|n: int|
                0 <= n < k ==> #[trigger] out@[n] == if n / (w as int) < 2 * (h / 2) && n % (w as int) < 4 * (w / 4) {
                    recursive(mode, above@, left@, top, n / w as int, n % w as int)
                } else {
                    0
                },
        decreases area - k,
    {
        proof {
            assert(w > 0) by (nonlinear_arith)
                requires
                    0 <= k < w * h,
                    w >= 0,
            ;
            let (r, c) = (k as int / w as int, k as int % w as int);
            vstd::arithmetic::div_mod::lemma_fundamental_div_mod(k as int, w as int);
            assert(0 <= r < h && 0 <= c < w) by (nonlinear_arith)
                requires
                    0 <= k < w * h,
                    w > 0,
                    r == k as int / w as int,
                    c == k as int % w as int,
            ;
            assert(r * w + c == k) by (nonlinear_arith)
                requires
                    k == w * r + c,
            ;
            if r < y && c < 4 * (w / 4) {
                assert(ready(r, c, y as int, 0));
                assert(pred@[r * w + c] == recursive(mode, above@, left@, top, r, c));
            } else {
                assert(pred@[r * w + c] == 0);
            }
        }
        out.push(pred[k] as u16);
        k = k + 1;
    }
    out
}

/// Predict a block of four by four with the recursive filter.
pub fn predict_filter_intra_4x4(filter_mode: usize, above: &Edge, left: &Edge, bit_depth: u8) -> (r: [[u16; 4]; 4])
    requires
        sampled(above@),
        sampled(left@),
        bit_depth <= 16,
    ensures
        forall|i: int, j: int|
            0 <= i < 4 && 0 <= j < 4 ==> #[trigger] r@[i]@[j] == recursive(
                filter_mode as int,
                above@,
                left@,
                p2(bit_depth as int) - 1,
                i,
                j,
            ),
{
    let flat = predict_filter_intra(filter_mode, above, left, 4, 4, bit_depth);
    let pred = square(&flat);
    assert forall|i: int, j: int| 0 <= i < 4 && 0 <= j < 4 implies #[trigger] pred@[i]@[j] == recursive(
        filter_mode as int,
        above@,
        left@,
        p2(bit_depth as int) - 1,
        i,
        j,
    ) by {
        let k = 4 * i + j;
        assert(k / 4 == i && k % 4 == j);
        assert(flat@[k] == recursive(filter_mode as int, above@, left@, p2(bit_depth as int) - 1, k / 4, k % 4));
    }
    pred
}

/// From edges that all hold one value, the recursive filter predicts that value.
pub proof fn lemma_recursive_flat(mode: int, above: Seq<i32>, left: Seq<i32>, top: int, r: int, c: int, v: int)
    requires
        mode >= 0,
        above.len() == 320,
        left.len() == 320,
        0 <= v <= top,
        forall|i: int| 0 <= i < 320 ==> #[trigger] above[i] == v,
        forall|i: int| 0 <= i < 320 ==> #[trigger] left[i] == v,
        0 <= r < 256,
        0 <= c < 256,
    ensures
        recursive(mode, above, left, top, r, c) == v,
    decreases r / 2, c / 4,
{
    let (y, x) = (2 * (r / 2), 4 * (c / 4));
    let (i, j) = (r % 2, c % 4);
    lemma_recursive(mode, above, left, top, y, x, i, j);
    let p = inputs(mode, above, left, top, y, x);
    assert forall|k: int| 0 <= k < 7 implies #[trigger] p[k] == v by {
        if k < 5 && y > 0 && !(x == 0 && k == 0) {
            lemma_recursive_flat(mode, above, left, top, y - 1, x + k - 1, v);
        }
        if k >= 5 && x > 0 {
            lemma_recursive_flat(mode, above, left, top, y + k - 5, x - 1, v);
        }
    }
    let at = 4 * i + j;
    lemma_taps_sum(mode, at);
    lemma_p2_values();
    reveal(mixed);
    let (t0, t1, t2, t3, t4, t5, t6) = (
        tap(mode, at, 0),
        tap(mode, at, 1),
        tap(mode, at, 2),
        tap(mode, at, 3),
        tap(mode, at, 4),
        tap(mode, at, 5),
        tap(mode, at, 6),
    );
    assert(t0 * v + t1 * v + t2 * v + t3 * v + t4 * v + t5 * v + t6 * v == 16 * v) by (nonlinear_arith)
        requires
            t0 + t1 + t2 + t3 + t4 + t5 + t6 == 16,
    ;
    assert(p[0] == v && p[1] == v && p[2] == v && p[3] == v && p[4] == v && p[5] == v && p[6] == v);
}

} // verus!
