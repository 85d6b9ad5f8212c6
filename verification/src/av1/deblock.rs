//! The deblocking loop filter.
//!
//! After a frame is reconstructed, the loop filter smooths the transform
//! boundaries. It runs in two passes over each plane, every vertical boundary
//! first, then every horizontal one. At each edge of four samples it decides,
//! from the transform sizes on either side and a strength derived from the
//! frame's parameters, whether to apply a narrow or a wide low-pass filter.
//!
//! Every block is intra here, so every transform edge is filtered, and chroma is
//! not subsampled, so all planes share one grid.
use super::frame::{LoopFilter, LoopFilterModel};
use super::plane::{Plane, Samples};
use super::transform::{lemma_raster, TxSize};
use super::tx_size::{lemma_sized, sized};
use crate::math::{
    abs, abs_i32, clamp, clamp_i32, lemma_p2_add, lemma_p2_mono, lemma_p2_pos, lemma_p2_values, max, min, p2, pow2_i32, round2,
    shr_i32,
};
use vstd::prelude::*;

verus! {

/// The side of the smallest coded block, in samples.
pub const MI_SIZE: usize = 4;

/// How a boundary is filtered.
#[derive(Clone, Copy)]
pub struct Strength {
    /// The level; zero leaves the boundary alone.
    pub lvl: i32,
    /// The most that neighbouring samples on one side may differ.
    pub limit: i32,
    /// The most that the samples at the boundary may differ.
    pub blimit: i32,
    /// Above this difference a side has high variance.
    pub thresh: i32,
}

/// The level, of up to 63, at which a plane's boundaries of one direction are
/// filtered: the frame's level raised by the intra delta.
pub open spec fn filter_level(lf: LoopFilterModel, plane: int, pass: int) -> int {
    let at = if plane == 0 {
        pass
    } else {
        plane + 1
    };
    let base = clamp(
        if at < 4 {
            lf.level[at]
        } else {
            0
        },
        0,
        63,
    );
    if lf.delta_enabled {
        clamp(base + lf.ref_deltas[0] * p2(base / 32), 0, 63)
    } else {
        base
    }
}

/// The shift that sharpness takes off the limit.
pub open spec fn sharpness_shift(sharpness: int) -> int {
    if sharpness > 4 {
        2
    } else if sharpness > 0 {
        1
    } else {
        0
    }
}

/// The most that neighbouring samples on one side may differ.
pub open spec fn side_limit(lf: LoopFilterModel, lvl: int) -> int {
    let sharpness = lf.sharpness;
    let x = lvl / p2(sharpness_shift(sharpness));
    if sharpness > 0 {
        clamp(x, 1, 9 - sharpness)
    } else {
        max(x, 1)
    }
}

/// How a plane's boundaries of one direction are filtered.
pub open spec fn strength(lf: LoopFilterModel, plane: int, pass: int) -> Strength {
    let lvl = filter_level(lf, plane, pass);
    let limit = side_limit(lf, lvl);
    Strength {
        lvl: lvl as i32,
        limit: limit as i32,
        blimit: (2 * (lvl + 2) + limit) as i32,
        thresh: (lvl / 16) as i32,
    }
}

/// The sample `k` steps across the boundary at `(x, y)`; the boundary runs down
/// in the first pass and across in the second.
pub open spec fn tap(p: Samples, pass: int, x: int, y: int, k: int) -> int {
    if pass == 0 {
        p.nearest(x + k, y) as int
    } else {
        p.nearest(x, y + k) as int
    }
}

/// The plane with another sample `k` steps across the boundary.
pub open spec fn put_tap(p: Samples, pass: int, x: int, y: int, k: int, value: int) -> Samples {
    if pass == 0 {
        p.with(x + k, y, max(value, 0) as u16)
    } else {
        p.with(x, y + k, max(value, 0) as u16)
    }
}

/// `x` limited to the signed range of `bd` bits.
pub open spec fn limited(x: int, bd: int) -> int {
    clamp(x, -p2(bd - 1), p2(bd - 1) - 1)
}

/// The narrow filter's correction at a boundary, before rounding.
pub open spec fn narrow_base(p: Samples, pass: int, x: int, y: int, hev: bool, bd: int) -> int {
    let (p1, p0) = (tap(p, pass, x, y, -2), tap(p, pass, x, y, -1));
    let (q0, q1) = (tap(p, pass, x, y, 0), tap(p, pass, x, y, 1));
    limited(
        (if hev {
            limited(p1 - q1, bd)
        } else {
            0
        }) + 3 * (q0 - p0),
        bd,
    )
}

/// The plane after the narrow filter: one sample on each side changes, and where
/// neither side has high variance a second.
pub open spec fn narrowed(p: Samples, pass: int, x: int, y: int, hev: bool, bd: int) -> Samples {
    let bias = p2(bd - 1);
    let (p1, p0) = (tap(p, pass, x, y, -2), tap(p, pass, x, y, -1));
    let (q0, q1) = (tap(p, pass, x, y, 0), tap(p, pass, x, y, 1));
    let base = narrow_base(p, pass, x, y, hev, bd);
    let f1 = limited(base + 4, bd) / 8;
    let f2 = limited(base + 3, bd) / 8;
    let near = put_tap(
        put_tap(p, pass, x, y, 0, limited(q0 - bias - f1, bd) + bias),
        pass,
        x,
        y,
        -1,
        limited(p0 - bias + f2, bd) + bias,
    );
    if hev {
        near
    } else {
        let f = round2(f1, 1);
        put_tap(
            put_tap(near, pass, x, y, 1, limited(q1 - bias - f, bd) + bias),
            pass,
            x,
            y,
            -2,
            limited(p1 - bias + f, bd) + bias,
        )
    }
}

/// The weighted sum of the wide filter of reach `n` around step `i`, over the
/// offsets from `-n` up to but not including `to`.
pub open spec fn wide_sum(p: Samples, pass: int, x: int, y: int, n: int, n2: int, i: int, to: int) -> int
    decreases to + n,
{
    if to <= -n {
        0
    } else {
        let j = to - 1;
        wide_sum(p, pass, x, y, n, n2, i, to - 1) + tap(p, pass, x, y, clamp(i + j, -(n + 1), n)) * if abs(j) <= n2 {
            2int
        } else {
            1
        }
    }
}

/// The wide filter's value at step `i`.
pub open spec fn wide_value(p: Samples, pass: int, x: int, y: int, n: int, n2: int, log2: int, i: int) -> int {
    round2(wide_sum(p, pass, x, y, n, n2, i, n + 1), log2)
}

/// The plane after the wide filter's values at steps from `-n` up to but not
/// including `to` are written.
pub open spec fn wide_to(p: Samples, pass: int, x: int, y: int, n: int, n2: int, log2: int, to: int) -> Samples
    decreases to + n,
{
    if to <= -n {
        p
    } else {
        put_tap(
            wide_to(p, pass, x, y, n, n2, log2, to - 1),
            pass,
            x,
            y,
            to - 1,
            wide_value(p, pass, x, y, n, n2, log2, to - 1),
        )
    }
}

/// The plane after the wide filter.
pub open spec fn widened(p: Samples, plane: int, pass: int, x: int, y: int, log2: int) -> Samples {
    let n = if log2 == 4 {
        6
    } else if plane == 0 {
        3
    } else {
        2int
    };
    let n2 = if log2 == 3 && plane == 0 {
        0
    } else {
        1int
    };
    wide_to(p, pass, x, y, n, n2, log2, n)
}

/// Whether either side of a boundary has high variance.
pub open spec fn high_variance(p: Samples, pass: int, x: int, y: int, thresh: int) -> bool {
    ||| abs(tap(p, pass, x, y, -2) - tap(p, pass, x, y, -1)) > thresh
    ||| abs(tap(p, pass, x, y, 1) - tap(p, pass, x, y, 0)) > thresh
}

/// Whether the samples around a boundary differ too much to be filtered: the
/// boundary is then taken for an edge of the picture. `len` is how many samples
/// the filter would use.
pub open spec fn is_edge(p: Samples, pass: int, x: int, y: int, limit: int, blimit: int, len: int) -> bool {
    let (p3, p2, p1, p0) = (
        tap(p, pass, x, y, -4),
        tap(p, pass, x, y, -3),
        tap(p, pass, x, y, -2),
        tap(p, pass, x, y, -1),
    );
    let (q0, q1, q2, q3) = (
        tap(p, pass, x, y, 0),
        tap(p, pass, x, y, 1),
        tap(p, pass, x, y, 2),
        tap(p, pass, x, y, 3),
    );
    ||| abs(p1 - p0) > limit
    ||| abs(q1 - q0) > limit
    ||| abs(p0 - q0) * 2 + abs(p1 - q1) / 2 > blimit
    ||| len >= 6 && (abs(p2 - p1) > limit || abs(q2 - q1) > limit)
    ||| len >= 8 && (abs(p3 - p2) > limit || abs(q3 - q2) > limit)
}

/// Whether the samples up to `len` from a boundary stay within `one` of it.
pub open spec fn is_flat(p: Samples, pass: int, x: int, y: int, one: int, from: int, len: int) -> bool {
    forall|k: int|
        from <= k < len ==> abs(#[trigger] tap(p, pass, x, y, k) - tap(p, pass, x, y, 0)) <= one && abs(
            tap(p, pass, x, y, -1 - k) - tap(p, pass, x, y, -1),
        ) <= one
}

/// How many samples a filter of a size uses.
pub open spec fn filter_length(size: int, plane: int) -> int {
    if size == 4 {
        4
    } else if plane != 0 {
        6
    } else if size == 8 {
        8
    } else {
        16
    }
}

/// The plane after the boundary sample at `(x, y)` is filtered.
#[verifier::opaque]
pub open spec fn sample_filtered(p: Samples, plane: int, pass: int, x: int, y: int, s: Strength, size: int, bd: int) -> Samples {
    let one = p2(bd - 8);
    let len = filter_length(size, plane);
    if is_edge(p, pass, x, y, s.limit * one, s.blimit * one, len) {
        p
    } else if size == 4 || !is_flat(
        p,
        pass,
        x,
        y,
        one,
        1,
        if len >= 8 {
            4
        } else {
            3
        },
    ) {
        narrowed(p, pass, x, y, high_variance(p, pass, x, y, s.thresh * one), bd)
    } else if size == 8 || !is_flat(p, pass, x, y, one, 4, 7) {
        widened(p, plane, pass, x, y, 3)
    } else {
        widened(p, plane, pass, x, y, 4)
    }
}

/// A plane that can be filtered: its places have signed numbers.
pub open spec fn filterable(p: Samples) -> bool {
    p.wf() && p.width <= isize::MAX && p.height <= isize::MAX
}

/// The sample `k` steps across the boundary.
fn get(plane: &Plane, pass: usize, x: usize, y: usize, k: isize) -> (r: i32)
    requires
        filterable(plane@),
        x <= isize::MAX - 16,
        y <= isize::MAX - 16,
        -16 <= k <= 16,
    ensures
        r == tap(plane@, pass as int, x as int, y as int, k as int),
        0 <= r <= 0xFFFF,
{
    if pass == 0 {
        plane.sample_clamped(x as isize + k, y as isize) as i32
    } else {
        plane.sample_clamped(x as isize, y as isize + k) as i32
    }
}

/// Set the sample `k` steps across the boundary.
fn put(plane: &mut Plane, pass: usize, x: usize, y: usize, k: isize, value: i32)
    requires
        filterable(old(plane)@),
        x <= isize::MAX - 16,
        y <= isize::MAX - 16,
        -16 <= k <= 16,
        value <= 0xFFFF,
    ensures
        final(plane)@ == put_tap(old(plane)@, pass as int, x as int, y as int, k as int, value as int),
        filterable(final(plane)@),
{
    let sx = if pass == 0 {
        x as isize + k
    } else {
        x as isize
    };
    let sy = if pass == 0 {
        y as isize
    } else {
        y as isize + k
    };
    if sx < 0 || sy < 0 {
        return;
    }
    let v: u16 = if value < 0 {
        0
    } else {
        value as u16
    };
    plane.set(sx as usize, sy as usize, v);
}

/// Limit to the signed range of `bd` bits.
fn filter4_clamp(value: i32, bd: u32) -> (r: i32)
    requires
        8 <= bd <= 16,
    ensures
        r == limited(value as int, bd as int),
        -0x8000 <= r <= 0x7FFF,
        -p2(bd - 1) <= r < p2(bd - 1),
{
    proof {
        lemma_p2_values();
        lemma_p2_mono(bd - 1, 15);
        lemma_p2_pos(bd - 1);
    }
    let half = pow2_i32(bd - 1);
    clamp_i32(value, -half, half - 1)
}

/// Apply the narrow filter.
fn narrow_filter(plane: &mut Plane, pass: usize, x: usize, y: usize, hev: bool, bd: u32)
    requires
        filterable(old(plane)@),
        x <= isize::MAX - 16,
        y <= isize::MAX - 16,
        8 <= bd <= 16,
    ensures
        final(plane)@ == narrowed(old(plane)@, pass as int, x as int, y as int, hev, bd as int),
        filterable(final(plane)@),
{
    proof {
        lemma_p2_values();
        lemma_p2_mono(bd - 1, 15);
        lemma_p2_pos(bd - 1);
    }
    let bias = pow2_i32(bd - 1);
    let q0 = get(plane, pass, x, y, 0);
    let q1 = get(plane, pass, x, y, 1);
    let p0 = get(plane, pass, x, y, -1);
    let p1 = get(plane, pass, x, y, -2);
    let outer = if hev {
        filter4_clamp(p1 - q1, bd)
    } else {
        0
    };
    let base = filter4_clamp(outer + 3 * (q0 - p0), bd);
    let filter1 = shr_i32(filter4_clamp(base + 4, bd), 3);
    let filter2 = shr_i32(filter4_clamp(base + 3, bd), 3);
    put(plane, pass, x, y, 0, filter4_clamp(q0 - bias - filter1, bd) + bias);
    put(plane, pass, x, y, -1, filter4_clamp(p0 - bias + filter2, bd) + bias);
    if !hev {
        let f = shr_i32(filter1 + 1, 1);
        put(plane, pass, x, y, 1, filter4_clamp(q1 - bias - f, bd) + bias);
        put(plane, pass, x, y, -2, filter4_clamp(p1 - bias + f, bd) + bias);
    }
}

/// A wide filter's sum grows by at most two samples with each offset.
fn wide_sample(plane: &Plane, pass: usize, x: usize, y: usize, n: isize, n2: isize, log2: u32, i: isize) -> (r: i32)
    requires
        filterable(plane@),
        x <= isize::MAX - 16,
        y <= isize::MAX - 16,
        2 <= n <= 6,
        0 <= n2 <= 1,
        3 <= log2 <= 4,
        -6 <= i < 6,
        n == 6 ==> log2 == 4,
        n <= 3 ==> log2 == 3,
        n == 3 ==> n2 == 0,
        n == 2 || n == 3 || n == 6,
    ensures
        r == wide_value(
            plane@,
            pass as int,
            x as int,
            y as int,
            n as int,
            n2 as int,
            log2 as int,
            i as int,
        ),
        0 <= r <= 0xFFFF,
{
    let mut sum: i32 = 0;
    let mut j = -n;
    while j <= n
        invariant
            filterable(plane@),
            x <= isize::MAX - 16,
            y <= isize::MAX - 16,
            2 <= n <= 6,
            0 <= n2 <= 1,
            -6 <= i < 6,
            -n <= j <= n + 1,
            sum == wide_sum(plane@, pass as int, x as int, y as int, n as int, n2 as int, i as int, j as int),
            0 <= sum <= 0xFFFF * (j + n + if j <= -n2 {
                0
            } else if j <= n2 {
                j + n2
            } else {
                2 * n2 + 1
            }),
        decreases n + 1 - j,
    {
        let at = i + j;
        let pos = if at < -(n + 1) {
            -(n + 1)
        } else if at > n {
            n
        } else {
            at
        };
        let v = get(plane, pass, x, y, pos);
        let size = if j < 0 {
            -j
        } else {
            j
        };
        sum = sum + if size <= n2 {
            2 * v
        } else {
            v
        };
        j = j + 1;
    }
    proof {
        lemma_p2_values();
    }
    shr_i32(sum + pow2_i32(log2 - 1), log2)
}

/// Apply the wide filter.
fn wide_filter(plane: &mut Plane, number: usize, pass: usize, x: usize, y: usize, log2: u32)
    requires
        filterable(old(plane)@),
        x <= isize::MAX - 16,
        y <= isize::MAX - 16,
        3 <= log2 <= 4,
    ensures
        final(plane)@ == widened(old(plane)@, number as int, pass as int, x as int, y as int, log2 as int),
        filterable(final(plane)@),
{
    let n: isize = if log2 == 4 {
        6
    } else if number == 0 {
        3
    } else {
        2
    };
    let n2: isize = if log2 == 3 && number == 0 {
        0
    } else {
        1
    };
    let ghost start = plane@;
    let mut values = [0i32; 12];
    let mut i = -n;
    while i < n
        invariant
            plane@ == start,
            filterable(start),
            x <= isize::MAX - 16,
            y <= isize::MAX - 16,
            3 <= log2 <= 4,
            0 <= n2 <= 1,
            n == 6 ==> log2 == 4,
            n <= 3 ==> log2 == 3,
            n == 3 ==> n2 == 0,
            n == 2 || n == 3 || n == 6,
            -n <= i <= n,
            forall|k: int|
                0 <= k < i + n ==> 0 <= #[trigger] values@[k] <= 0xFFFF && values@[k] == wide_value(
                    start,
                    pass as int,
                    x as int,
                    y as int,
                    n as int,
                    n2 as int,
                    log2 as int,
                    k - n,
                ),
        decreases n - i,
    {
        let v = wide_sample(plane, pass, x, y, n, n2, log2, i);
        values[(i + n) as usize] = v;
        i = i + 1;
    }
    let mut i = -n;
    while i < n
        invariant
            filterable(plane@),
            x <= isize::MAX - 16,
            y <= isize::MAX - 16,
            n == 2 || n == 3 || n == 6,
            -n <= i <= n,
            forall|k: int|
                0 <= k < 2 * n ==> 0 <= #[trigger] values@[k] <= 0xFFFF && values@[k] == wide_value(
                    start,
                    pass as int,
                    x as int,
                    y as int,
                    n as int,
                    n2 as int,
                    log2 as int,
                    k - n,
                ),
            plane@ == wide_to(
                start,
                pass as int,
                x as int,
                y as int,
                n as int,
                n2 as int,
                log2 as int,
                i as int,
            ),
        decreases n - i,
    {
        assert(0 <= values@[i + n] <= 0xFFFF);
        put(plane, pass, x, y, i, values[(i + n) as usize]);
        i = i + 1;
    }
}

/// Whether the samples at steps `from..len` on both sides stay within `one` of
/// the boundary's.
fn flat(plane: &Plane, pass: usize, x: usize, y: usize, one: i32, from: isize, len: isize) -> (r: bool)
    requires
        filterable(plane@),
        x <= isize::MAX - 16,
        y <= isize::MAX - 16,
        1 <= from <= len <= 7,
    ensures
        r == is_flat(plane@, pass as int, x as int, y as int, one as int, from as int, len as int),
{
    let q0 = get(plane, pass, x, y, 0);
    let p0 = get(plane, pass, x, y, -1);
    let mut k = from;
    while k < len
        invariant
            filterable(plane@),
            x <= isize::MAX - 16,
            y <= isize::MAX - 16,
            1 <= from <= k <= len <= 7,
            q0 == tap(plane@, pass as int, x as int, y as int, 0),
            p0 == tap(plane@, pass as int, x as int, y as int, -1),
            0 <= q0 <= 0xFFFF,
            0 <= p0 <= 0xFFFF,
            is_flat(plane@, pass as int, x as int, y as int, one as int, from as int, k as int),
        decreases len - k,
    {
        let q = get(plane, pass, x, y, k);
        let p = get(plane, pass, x, y, -1 - k);
        assert(q == tap(plane@, pass as int, x as int, y as int, k as int));
        if abs_i32(q - q0) > one || abs_i32(p - p0) > one {
            return false;
        }
        k = k + 1;
    }
    true
}

/// Whether the samples around a boundary differ too much to be filtered.
fn edge_here(plane: &Plane, pass: usize, x: usize, y: usize, limit: i32, blimit: i32, len: usize) -> (r: bool)
    requires
        filterable(plane@),
        x <= isize::MAX - 16,
        y <= isize::MAX - 16,
    ensures
        r == is_edge(plane@, pass as int, x as int, y as int, limit as int, blimit as int, len as int),
{
    let q0 = get(plane, pass, x, y, 0);
    let q1 = get(plane, pass, x, y, 1);
    let q2 = get(plane, pass, x, y, 2);
    let q3 = get(plane, pass, x, y, 3);
    let p0 = get(plane, pass, x, y, -1);
    let p1 = get(plane, pass, x, y, -2);
    let p2 = get(plane, pass, x, y, -3);
    let p3 = get(plane, pass, x, y, -4);
    if abs_i32(p1 - p0) > limit || abs_i32(q1 - q0) > limit {
        return true;
    }
    if abs_i32(p0 - q0) * 2 + abs_i32(p1 - q1) / 2 > blimit {
        return true;
    }
    if len >= 6 && (abs_i32(p2 - p1) > limit || abs_i32(q2 - q1) > limit) {
        return true;
    }
    len >= 8 && (abs_i32(p3 - p2) > limit || abs_i32(q3 - q2) > limit)
}

/// Filter the boundary sample at `(x, y)`.
fn sample_filter(plane: &mut Plane, number: usize, pass: usize, x: usize, y: usize, s: Strength, size: usize, bit_depth: u8)
    requires
        filterable(old(plane)@),
        x <= isize::MAX - 16,
        y <= isize::MAX - 16,
        8 <= bit_depth <= 16,
        0 <= s.limit <= 1000,
        0 <= s.blimit <= 1000,
        0 <= s.thresh <= 1000,
    ensures
        final(plane)@ == sample_filtered(
            old(plane)@,
            number as int,
            pass as int,
            x as int,
            y as int,
            s,
            size as int,
            bit_depth as int,
        ),
        filterable(final(plane)@),
{
    let bd = bit_depth as u32;
    proof {
        reveal(sample_filtered);
        lemma_p2_values();
        lemma_p2_mono(bd - 8, 8);
        lemma_p2_pos(bd - 8);
    }
    let one = pow2_i32(bd - 8);
    let len: usize = if size == 4 {
        4
    } else if number != 0 {
        6
    } else if size == 8 {
        8
    } else {
        16
    };
    proof {
        assert(0 <= s.limit * one <= 256000 && 0 <= s.blimit * one <= 256000 && 0 <= s.thresh * one <= 256000)
            by (nonlinear_arith)
            requires
                0 <= s.limit <= 1000,
                0 <= s.blimit <= 1000,
                0 <= s.thresh <= 1000,
                1 <= one <= 256,
        ;
    }
    if edge_here(plane, pass, x, y, s.limit * one, s.blimit * one, len) {
        return;
    }
    let reach: isize = if len >= 8 {
        4
    } else {
        3
    };
    if size == 4 || !flat(plane, pass, x, y, one, 1, reach) {
        let q0 = get(plane, pass, x, y, 0);
        let q1 = get(plane, pass, x, y, 1);
        let p0 = get(plane, pass, x, y, -1);
        let p1 = get(plane, pass, x, y, -2);
        let thresh = s.thresh * one;
        let hev = abs_i32(p1 - p0) > thresh || abs_i32(q1 - q0) > thresh;
        narrow_filter(plane, pass, x, y, hev, bd);
    } else if size == 8 || !flat(plane, pass, x, y, one, 4, 7) {
        wide_filter(plane, number, pass, x, y, 3);
    } else {
        wide_filter(plane, number, pass, x, y, 4);
    }
}

/// What the loop filter reads besides the planes. Grids are row-major, `mi_cols`
/// wide.
pub struct Deblock<'a> {
    /// The frame's loop-filter parameters.
    pub loop_filter: &'a LoopFilter,
    /// The bit depth of the samples.
    pub bit_depth: u8,
    /// The number of planes.
    pub num_planes: usize,
    /// The frame's height in units of four samples.
    pub mi_rows: usize,
    /// The frame's width in units of four samples.
    pub mi_cols: usize,
    /// The visible width in samples.
    pub frame_width: usize,
    /// The visible height in samples.
    pub frame_height: usize,
    /// The index of the transform size at each unit, one grid for each plane.
    pub lf_tx_sizes: &'a [Vec<u8>],
}

/// The size with a coded index; 4 by 4 past the last.
pub open spec fn size_of(index: int) -> TxSize {
    if index < 19 {
        sized(index)
    } else {
        TxSize::Tx4x4
    }
}

/// What the loop filter reads besides the planes.
pub struct Filtering {
    /// The frame's loop-filter parameters.
    pub loop_filter: LoopFilterModel,
    /// The bit depth of the samples.
    pub bit_depth: int,
    /// The number of planes.
    pub num_planes: int,
    /// The frame's height in units of four samples.
    pub mi_rows: int,
    /// The frame's width in units of four samples.
    pub mi_cols: int,
    /// The visible width in samples.
    pub frame_width: int,
    /// The visible height in samples.
    pub frame_height: int,
    /// The index of the transform size at each unit, by planes.
    pub sizes: Seq<Seq<u8>>,
}

impl<'a> View for Deblock<'a> {
    type V = Filtering;

    open spec fn view(&self) -> Filtering {
        Filtering {
            loop_filter: self.loop_filter.model(),
            bit_depth: self.bit_depth as int,
            num_planes: self.num_planes as int,
            mi_rows: self.mi_rows as int,
            mi_cols: self.mi_cols as int,
            frame_width: self.frame_width as int,
            frame_height: self.frame_height as int,
            sizes: Seq::new(self.lf_tx_sizes@.len(), |i: int| self.lf_tx_sizes@[i]@),
        }
    }
}

impl Filtering {
    /// The parameters are in range, and machine integers have room for the units of
    /// the frame, the places of its samples and of those around them, and twice the
    /// delta that strengths are raised by.
    pub open spec fn wf(self) -> bool {
        &&& 8 <= self.bit_depth <= 16
        &&& 0 <= self.mi_rows && 4 * self.mi_rows <= isize::MAX - 16
        &&& 0 <= self.mi_cols && 4 * self.mi_cols <= isize::MAX - 16
        &&& self.mi_rows * self.mi_cols <= usize::MAX
        &&& self.loop_filter.sharpness <= 8
        &&& i32::MIN <= 2 * self.loop_filter.ref_deltas[0] <= i32::MAX
    }

    /// The transform size of a plane at a unit; 4 by 4 off the grid.
    pub open spec fn size_at(self, plane: int, row: int, col: int) -> TxSize {
        let at = row * self.mi_cols + col;
        if plane < self.sizes.len() && at < self.sizes[plane].len() {
            size_of(self.sizes[plane][at] as int)
        } else {
            TxSize::Tx4x4
        }
    }

    /// The widest filter a boundary allows: the shorter transform's side across
    /// it, at most 16 in luma and 8 in chroma.
    pub open spec fn width_across(self, plane: int, pass: int, row: int, col: int) -> int {
        let here = self.size_at(plane, row, col);
        let (before, side) = if pass == 0 {
            (self.size_at(plane, row, col - 1).w(), here.w())
        } else {
            (self.size_at(plane, row - 1, col).h(), here.h())
        };
        min(
            min(before, side),
            if plane == 0 {
                16
            } else {
                8
            },
        )
    }

    /// Whether a unit's boundary in a direction is a visible transform edge.
    pub open spec fn filters(self, plane: int, pass: int, row: int, col: int) -> bool {
        let (x, y) = (4 * col, 4 * row);
        let here = self.size_at(plane, row, col);
        &&& x < self.frame_width && y < self.frame_height
        &&& pass == 0 ==> x > 0 && x % here.w() == 0
        &&& pass != 0 ==> y > 0 && y % here.h() == 0
        &&& strength(self.loop_filter, plane, pass).lvl != 0
    }

    /// The plane after `n` of the four samples along a unit's boundary are filtered.
    pub open spec fn along(self, p: Samples, plane: int, pass: int, row: int, col: int, n: int) -> Samples
        decreases n,
    {
        if n <= 0 {
            p
        } else {
            sample_filtered(
                self.along(p, plane, pass, row, col, n - 1),
                plane,
                pass,
                4 * col + if pass == 0 {
                    0
                } else {
                    n - 1
                },
                4 * row + if pass == 0 {
                    n - 1
                } else {
                    0
                },
                strength(self.loop_filter, plane, pass),
                self.width_across(plane, pass, row, col),
                self.bit_depth,
            )
        }
    }

    /// The plane after a unit's boundary is filtered.
    pub open spec fn edge_filtered(self, p: Samples, plane: int, pass: int, row: int, col: int) -> Samples {
        if self.filters(plane, pass, row, col) {
            self.along(p, plane, pass, row, col, 4)
        } else {
            p
        }
    }

    /// The plane after the boundaries of the first `n` units, row by row, are filtered.
    pub open spec fn units_filtered(self, p: Samples, plane: int, pass: int, n: int) -> Samples
        decreases n,
    {
        if n <= 0 {
            p
        } else {
            self.edge_filtered(
                self.units_filtered(p, plane, pass, n - 1),
                plane,
                pass,
                (n - 1) / self.mi_cols,
                (n - 1) % self.mi_cols,
            )
        }
    }

    /// The plane after all its boundaries are filtered: those that run down, then
    /// those that run across.
    pub open spec fn plane_filtered(self, p: Samples, plane: int) -> Samples {
        let units = self.mi_rows * self.mi_cols;
        self.units_filtered(self.units_filtered(p, plane, 0, units), plane, 1, units)
    }

    /// Whether a plane is filtered at all: none is where both luma levels are
    /// zero, and a chroma plane is not where its own level is.
    pub open spec fn runs(self, plane: int) -> bool {
        let level = self.loop_filter.level;
        &&& level[0] != 0 || level[1] != 0
        &&& plane < self.num_planes
        &&& plane != 0 ==> plane < 3 && level[plane + 1] != 0
    }

    /// The planes after those that are filtered at all are.
    pub open spec fn all_filtered(self, planes: Seq<Samples>) -> Seq<Samples> {
        Seq::new(
            planes.len(),
            |i: int|
                if self.runs(i) {
                    self.plane_filtered(planes[i], i)
                } else {
                    planes[i]
                },
        )
    }
}

impl<'a> Deblock<'a> {
    /// The parameters are in range and the frame is not too large.
    pub open spec fn wf(&self) -> bool {
        self@.wf()
    }

    /// The transform size of a plane at a unit.
    fn tx_size(&self, plane: usize, row: usize, col: usize) -> (r: TxSize)
        requires
            self.wf(),
            row < self.mi_rows,
            col < self.mi_cols,
        ensures
            r == self@.size_at(plane as int, row as int, col as int),
    {
        proof {
            assert(0 <= row * self.mi_cols && row * self.mi_cols + self.mi_cols <= self.mi_rows * self.mi_cols)
                by (nonlinear_arith)
                requires
                    0 <= row < self.mi_rows,
                    0 <= self.mi_cols,
            ;
        }
        let at = row * self.mi_cols + col;
        if plane < self.lf_tx_sizes.len() && at < self.lf_tx_sizes[plane].len() {
            let r = TxSize::from_index(self.lf_tx_sizes[plane][at] as usize);
            proof {
                lemma_sized(r);
            }
            r
        } else {
            TxSize::Tx4x4
        }
    }

    /// How a plane's boundaries of one direction are filtered.
    fn filter_strength(&self, plane: usize, pass: usize) -> (r: Strength)
        requires
            self.wf(),
            pass <= 1,
            plane < usize::MAX,
        ensures
            r == strength(self.loop_filter.model(), plane as int, pass as int),
            0 <= r.limit <= 100,
            0 <= r.blimit <= 300,
            0 <= r.thresh <= 10,
    {
        proof {
            lemma_p2_values();
        }
        let at = if plane == 0 {
            pass
        } else {
            plane + 1
        };
        let level: i32 = if at < 4 {
            self.loop_filter.level[at] as i32
        } else {
            0
        };
        let base = clamp_i32(level, 0, 63);
        let lvl = if self.loop_filter.delta_enabled {
            let delta = self.loop_filter.ref_deltas[0];
            let raised = if base >= 32 {
                2 * delta
            } else {
                delta
            };
            proof {
                let k = base as int / 32;
                assert(k == 0 || k == 1);
                assert(delta * p2(k) == raised) by (nonlinear_arith)
                    requires
                        (p2(k) == 1 && raised == delta) || (p2(k) == 2 && raised == 2 * delta),
                ;
            }
            if raised > 63 {
                63
            } else {
                clamp_i32(base + raised, 0, 63)
            }
        } else {
            base
        };
        let sharpness = self.loop_filter.sharpness as i32;
        let x = if sharpness > 4 {
            lvl / 4
        } else if sharpness > 0 {
            lvl / 2
        } else {
            lvl
        };
        let limit = if sharpness > 0 {
            clamp_i32(x, 1, 9 - sharpness)
        } else if x > 1 {
            x
        } else {
            1
        };
        Strength { lvl, limit, blimit: 2 * (lvl + 2) + limit, thresh: lvl / 16 }
    }

    /// Filter one unit's boundary.
    fn filter_edge(&self, buf: &mut Plane, plane: usize, pass: usize, row: usize, col: usize)
        requires
            self.wf(),
            filterable(old(buf)@),
            pass <= 1,
            row < self.mi_rows,
            col < self.mi_cols,
            plane < usize::MAX,
        ensures
            final(buf)@ == self@.edge_filtered(old(buf)@, plane as int, pass as int, row as int, col as int),
            filterable(final(buf)@),
    {
        let x = col * MI_SIZE;
        let y = row * MI_SIZE;
        if x >= self.frame_width || y >= self.frame_height {
            return;
        }
        if (pass == 0 && x == 0) || (pass == 1 && y == 0) {
            return;
        }
        let here = self.tx_size(plane, row, col);
        let on_edge = if pass == 0 {
            x % here.width() == 0
        } else {
            y % here.height() == 0
        };
        if !on_edge {
            return;
        }
        let before = if pass == 0 {
            self.tx_size(plane, row, col - 1)
        } else {
            self.tx_size(plane, row - 1, col)
        };
        let size = if pass == 0 {
            let (a, b) = (before.width(), here.width());
            if a < b {
                a
            } else {
                b
            }
        } else {
            let (a, b) = (before.height(), here.height());
            if a < b {
                a
            } else {
                b
            }
        };
        let most: usize = if plane == 0 {
            16
        } else {
            8
        };
        let size = if size < most {
            size
        } else {
            most
        };
        assert(size == self@.width_across(plane as int, pass as int, row as int, col as int));
        let s = self.filter_strength(plane, pass);
        if s.lvl == 0 {
            return;
        }
        let ghost start = buf@;
        let mut i: usize = 0;
        while i < 4
            invariant
                i <= 4,
                self.wf(),
                filterable(buf@),
                row < self.mi_rows,
                col < self.mi_cols,
                pass <= 1,
                x == 4 * col,
                y == 4 * row,
                size == self@.width_across(plane as int, pass as int, row as int, col as int),
                s == strength(self.loop_filter.model(), plane as int, pass as int),
                0 <= s.limit <= 100,
                0 <= s.blimit <= 300,
                0 <= s.thresh <= 10,
                buf@ == self@.along(start, plane as int, pass as int, row as int, col as int, i as int),
            decreases 4 - i,
        {
            let fx = if pass == 0 {
                x
            } else {
                x + i
            };
            let fy = if pass == 0 {
                y + i
            } else {
                y
            };
            sample_filter(buf, plane, pass, fx, fy, s, size, self.bit_depth);
            i = i + 1;
        }
    }

    /// Filter all boundaries of one direction in a plane.
    fn filter_pass(&self, buf: &mut Plane, plane: usize, pass: usize)
        requires
            self.wf(),
            filterable(old(buf)@),
            pass <= 1,
            plane < usize::MAX,
        ensures
            final(buf)@ == self@.units_filtered(old(buf)@, plane as int, pass as int, self.mi_rows * self.mi_cols),
            filterable(final(buf)@),
    {
        proof {
            assert(0 <= self.mi_rows * self.mi_cols) by (nonlinear_arith)
                requires
                    0 <= self.mi_rows,
                    0 <= self.mi_cols,
            ;
        }
        let units = self.mi_rows * self.mi_cols;
        let ghost start = buf@;
        let mut n: usize = 0;
        while n < units
            invariant
                n <= units,
                units == self.mi_rows * self.mi_cols,
                self.wf(),
                filterable(buf@),
                pass <= 1,
                plane < usize::MAX,
                buf@ == self@.units_filtered(start, plane as int, pass as int, n as int),
            decreases units - n,
        {
            let cols = self.mi_cols;
            let rows = self.mi_rows;
            proof {
                assert(cols > 0 && 0 <= n / cols < rows && 0 <= n % cols < cols) by (nonlinear_arith)
                    requires
                        0 <= n < rows * cols,
                        cols >= 0,
                ;
            }
            self.filter_edge(buf, plane, pass, n / cols, n % cols);
            n = n + 1;
        }
    }

    /// Filter every plane in place.
    pub fn run(&self, planes: &mut Vec<Plane>)
        requires
            self.wf(),
            forall|i: int| 0 <= i < old(planes)@.len() ==> filterable((#[trigger] old(planes)@[i])@),
        ensures
            final(planes)@.len() == old(planes)@.len(),
            forall|i: int|
                0 <= i < old(planes)@.len() ==> (#[trigger] final(planes)@[i])@ == if self@.runs(i) {
                    self@.plane_filtered(old(planes)@[i]@, i)
                } else {
                    old(planes)@[i]@
                },
            forall|i: int| 0 <= i < old(planes)@.len() ==> filterable((#[trigger] final(planes)@[i])@),
    {
        if self.loop_filter.level[0] == 0 && self.loop_filter.level[1] == 0 {
            return;
        }
        let ghost start = planes@;
        let mut plane: usize = 0;
        while plane < planes.len()
            invariant
                plane <= planes@.len(),
                planes@.len() == start.len(),
                self.wf(),
                self.loop_filter.level@[0] != 0 || self.loop_filter.level@[1] != 0,
                forall|i: int| 0 <= i < start.len() ==> filterable((#[trigger] start[i])@),
                forall|i: int| 0 <= i < start.len() ==> filterable((#[trigger] planes@[i])@),
                forall|i: int|
                    0 <= i < plane ==> (#[trigger] planes@[i])@ == if self@.runs(i) {
                        self@.plane_filtered(start[i]@, i)
                    } else {
                        start[i]@
                    },
                forall|i: int| plane <= i < start.len() ==> (#[trigger] planes@[i])@ == start[i]@,
            decreases planes@.len() - plane,
        {
            let wanted = plane < self.num_planes && (plane == 0 || (plane < 3 && self.loop_filter.level[plane + 1]
                != 0));
            if wanted {
                assert(filterable(planes@[plane as int]@));
                let buf = &mut planes[plane];
                self.filter_pass(buf, plane, 0);
                self.filter_pass(buf, plane, 1);
            }
            plane = plane + 1;
        }
    }
}

/// A plane whose samples all hold one value.
pub open spec fn uniform(p: Samples, v: u16) -> bool {
    &&& p.wf()
    &&& p.width > 0
    &&& p.height > 0
    &&& forall|i: int| 0 <= i < p.data.len() ==> #[trigger] p.data[i] == v
}

/// Every sample of a uniform plane is its value, and writing that value changes
/// nothing.
proof fn lemma_uniform_taps(p: Samples, v: u16, pass: int, x: int, y: int, k: int)
    requires
        uniform(p, v),
    ensures
        tap(p, pass, x, y, k) == v,
        put_tap(p, pass, x, y, k, v as int) == p,
{
    let (u, w) = if pass == 0 {
        (x + k, y)
    } else {
        (x, y + k)
    };
    let (cu, cw) = (clamp(u, 0, p.width - 1), clamp(w, 0, p.height - 1));
    lemma_raster(cw, cu, p.width, p.height);
    if p.has(u, w) {
        lemma_raster(w, u, p.width, p.height);
        assert(p.data.update(w * p.width + u, v) =~= p.data);
    }
    assert(put_tap(p, pass, x, y, k, v as int) =~= p);
}

/// The wide filter's weights, up to an offset, times the value of a uniform plane.
proof fn lemma_uniform_sum(p: Samples, v: u16, pass: int, x: int, y: int, n: int, n2: int, i: int, to: int)
    requires
        uniform(p, v),
        1 <= n,
        0 <= n2 < n,
        -n <= to <= n + 1,
    ensures
        wide_sum(p, pass, x, y, n, n2, i, to) == v * (to + n + if to <= -n2 {
            0
        } else if to <= n2 {
            to + n2
        } else {
            2 * n2 + 1
        }),
    decreases to + n,
{
    if to > -n {
        lemma_uniform_sum(p, v, pass, x, y, n, n2, i, to - 1);
        lemma_uniform_taps(p, v, pass, x, y, clamp(i + to - 1, -(n + 1), n));
        let a = to - 1 + n + if to - 1 <= -n2 {
            0
        } else if to - 1 <= n2 {
            to - 1 + n2
        } else {
            2 * n2 + 1
        };
        let b = to + n + if to <= -n2 {
            0
        } else if to <= n2 {
            to + n2
        } else {
            2 * n2 + 1
        };
        let w = if abs(to - 1) <= n2 {
            2int
        } else {
            1
        };
        assert(v * a + v * w == v * b) by (nonlinear_arith)
            requires
                a + w == b,
        ;
    } else {
        assert(v * 0 == 0);
    }
}

/// Writing the wide filter's values changes nothing in a uniform plane.
proof fn lemma_uniform_wide(p: Samples, v: u16, pass: int, x: int, y: int, n: int, n2: int, log2: int, to: int)
    requires
        uniform(p, v),
        (n, n2, log2) == (3int, 0int, 3int) || (n, n2, log2) == (2int, 1int, 3int) || (n, n2, log2) == (6int, 1int, 4int),
        to <= n,
    ensures
        wide_to(p, pass, x, y, n, n2, log2, to) == p,
    decreases to + n,
{
    if to > -n {
        lemma_uniform_wide(p, v, pass, x, y, n, n2, log2, to - 1);
        lemma_uniform_sum(p, v, pass, x, y, n, n2, to - 1, n + 1);
        lemma_p2_values();
        let w = 2 * n + 2 + 2 * n2;
        assert(w == p2(log2));
        assert(v * w == v * p2(log2));
        assert(wide_sum(p, pass, x, y, n, n2, to - 1, n + 1) == v * w);
        assert(wide_value(p, pass, x, y, n, n2, log2, to - 1) == v);
        lemma_uniform_taps(p, v, pass, x, y, to - 1);
    }
}

/// Filtering a boundary sample changes nothing in a uniform plane.
proof fn lemma_uniform_sample(
    p: Samples,
    v: u16,
    plane: int,
    pass: int,
    x: int,
    y: int,
    s: Strength,
    size: int,
    bd: int,
)
    requires
        uniform(p, v),
        8 <= bd <= 16,
        v < p2(bd),
    ensures
        sample_filtered(p, plane, pass, x, y, s, size, bd) == p,
{
    reveal(sample_filtered);
    lemma_p2_values();
    lemma_p2_mono(7, bd - 1);
    lemma_uniform_taps(p, v, pass, x, y, -2);
    lemma_uniform_taps(p, v, pass, x, y, -1);
    lemma_uniform_taps(p, v, pass, x, y, 0);
    lemma_uniform_taps(p, v, pass, x, y, 1);
    let hev = high_variance(p, pass, x, y, s.thresh * p2(bd - 8));
    assert(narrow_base(p, pass, x, y, hev, bd) == 0);
    assert(narrowed(p, pass, x, y, hev, bd) == p);
    if plane == 0 {
        lemma_uniform_wide(p, v, pass, x, y, 3, 0, 3, 3);
    } else {
        lemma_uniform_wide(p, v, pass, x, y, 2, 1, 3, 2);
    }
    lemma_uniform_wide(p, v, pass, x, y, 6, 1, 4, 6);
}

/// A plane whose samples all hold one value has no edges: the loop filter, at
/// any strength, leaves it as it is.
pub proof fn lemma_uniform_plane_stays(d: Filtering, p: Samples, v: u16, plane: int)
    requires
        d.wf(),
        uniform(p, v),
        v < p2(d.bit_depth),
    ensures
        d.plane_filtered(p, plane) == p,
{
    assert(0 <= d.mi_rows * d.mi_cols) by (nonlinear_arith)
        requires
            0 <= d.mi_rows,
            0 <= d.mi_cols,
    ;
    lemma_uniform_units(d, p, v, plane, 0, d.mi_rows * d.mi_cols);
    lemma_uniform_units(d, p, v, plane, 1, d.mi_rows * d.mi_cols);
}

/// Filtering the first units changes nothing in a uniform plane.
proof fn lemma_uniform_units(d: Filtering, p: Samples, v: u16, plane: int, pass: int, n: int)
    requires
        d.wf(),
        uniform(p, v),
        v < p2(d.bit_depth),
    ensures
        d.units_filtered(p, plane, pass, n) == p,
    decreases n,
{
    if n > 0 {
        lemma_uniform_units(d, p, v, plane, pass, n - 1);
        let (row, col) = ((n - 1) / d.mi_cols, (n - 1) % d.mi_cols);
        lemma_uniform_along(d, p, v, plane, pass, row, col, 4);
    }
}

/// Filtering along a unit's boundary changes nothing in a uniform plane.
proof fn lemma_uniform_along(d: Filtering, p: Samples, v: u16, plane: int, pass: int, row: int, col: int, n: int)
    requires
        d.wf(),
        uniform(p, v),
        v < p2(d.bit_depth),
    ensures
        d.along(p, plane, pass, row, col, n) == p,
    decreases n,
{
    if n > 0 {
        lemma_uniform_along(d, p, v, plane, pass, row, col, n - 1);
        let (x, y) = (
            4 * col + if pass == 0 {
                0
            } else {
                n - 1
            },
            4 * row + if pass == 0 {
                n - 1
            } else {
                0
            },
        );
        lemma_uniform_sample(
            p,
            v,
            plane,
            pass,
            x,
            y,
            strength(d.loop_filter, plane, pass),
            d.width_across(plane, pass, row, col),
            d.bit_depth,
        );
    }
}

/// A plane with some samples, all of `bd` bits.
pub open spec fn ranged(p: Samples, bd: int) -> bool {
    p.wf() && p.width > 0 && p.height > 0 && p.fits(bd)
}

/// A tap is a sample, and writing one keeps the plane's range.
proof fn lemma_ranged_tap(p: Samples, pass: int, x: int, y: int, k: int, value: int, bd: int)
    requires
        ranged(p, bd),
        8 <= bd <= 16,
    ensures
        0 <= tap(p, pass, x, y, k) < p2(bd),
        value < p2(bd) ==> ranged(put_tap(p, pass, x, y, k, value), bd),
{
    let (u, w) = if pass == 0 {
        (x + k, y)
    } else {
        (x, y + k)
    };
    let (cu, cw) = (clamp(u, 0, p.width - 1), clamp(w, 0, p.height - 1));
    lemma_raster(cw, cu, p.width, p.height);
    lemma_p2_values();
    lemma_p2_mono(bd, 16);
    lemma_p2_pos(bd);
    if p.has(u, w) && value < p2(bd) {
        lemma_raster(w, u, p.width, p.height);
        let q = put_tap(p, pass, x, y, k, value);
        assert(q.data == p.data.update(w * p.width + u, max(value, 0) as u16));
        assert forall|i: int| 0 <= i < q.data.len() implies #[trigger] q.data[i] < p2(bd) by {
            assert(p.data[i] < p2(bd));
        }
    }
}

/// The narrow filter keeps a plane's range.
proof fn lemma_ranged_narrow(p: Samples, pass: int, x: int, y: int, hev: bool, bd: int)
    requires
        ranged(p, bd),
        8 <= bd <= 16,
    ensures
        ranged(narrowed(p, pass, x, y, hev, bd), bd),
{
    lemma_p2_add(bd - 1, 1);
    lemma_p2_values();
    lemma_p2_pos(bd - 1);
    let bias = p2(bd - 1);
    let (p1, p0) = (tap(p, pass, x, y, -2), tap(p, pass, x, y, -1));
    let (q0, q1) = (tap(p, pass, x, y, 0), tap(p, pass, x, y, 1));
    let base = narrow_base(p, pass, x, y, hev, bd);
    let f1 = limited(base + 4, bd) / 8;
    let f2 = limited(base + 3, bd) / 8;
    let v0 = limited(q0 - bias - f1, bd) + bias;
    let first = put_tap(p, pass, x, y, 0, v0);
    lemma_ranged_tap(p, pass, x, y, 0, v0, bd);
    let v1 = limited(p0 - bias + f2, bd) + bias;
    let near = put_tap(first, pass, x, y, -1, v1);
    lemma_ranged_tap(first, pass, x, y, -1, v1, bd);
    let f = round2(f1, 1);
    let v2 = limited(q1 - bias - f, bd) + bias;
    let third = put_tap(near, pass, x, y, 1, v2);
    lemma_ranged_tap(near, pass, x, y, 1, v2, bd);
    lemma_ranged_tap(third, pass, x, y, -2, limited(p1 - bias + f, bd) + bias, bd);
}

/// The wide filter's sum is no more than its weights, up to an offset, times the
/// greatest sample.
proof fn lemma_ranged_sum(p: Samples, pass: int, x: int, y: int, n: int, n2: int, i: int, to: int, bd: int)
    requires
        ranged(p, bd),
        8 <= bd <= 16,
        1 <= n,
        0 <= n2 < n,
        -n <= to <= n + 1,
    ensures
        0 <= wide_sum(p, pass, x, y, n, n2, i, to) <= (p2(bd) - 1) * (to + n + if to <= -n2 {
            0
        } else if to <= n2 {
            to + n2
        } else {
            2 * n2 + 1
        }),
    decreases to + n,
{
    let v = p2(bd) - 1;
    if to > -n {
        lemma_ranged_sum(p, pass, x, y, n, n2, i, to - 1, bd);
        let t = tap(p, pass, x, y, clamp(i + to - 1, -(n + 1), n));
        lemma_ranged_tap(p, pass, x, y, clamp(i + to - 1, -(n + 1), n), 0, bd);
        let a = to - 1 + n + if to - 1 <= -n2 {
            0
        } else if to - 1 <= n2 {
            to - 1 + n2
        } else {
            2 * n2 + 1
        };
        let b = to + n + if to <= -n2 {
            0
        } else if to <= n2 {
            to + n2
        } else {
            2 * n2 + 1
        };
        let w = if abs(to - 1) <= n2 {
            2int
        } else {
            1
        };
        assert(0 <= t * w <= v * w && v * a + v * w == v * b) by (nonlinear_arith)
            requires
                0 <= t <= v,
                1 <= w <= 2,
                a + w == b,
        ;
    } else {
        assert(v * 0 == 0);
    }
}

/// Writing the wide filter's values keeps a plane's range.
proof fn lemma_ranged_wide(p: Samples, pass: int, x: int, y: int, n: int, n2: int, log2: int, to: int, bd: int)
    requires
        ranged(p, bd),
        8 <= bd <= 16,
        (n, n2, log2) == (3int, 0int, 3int) || (n, n2, log2) == (2int, 1int, 3int) || (n, n2, log2) == (6int, 1int, 4int),
        to <= n,
    ensures
        ranged(wide_to(p, pass, x, y, n, n2, log2, to), bd),
    decreases to + n,
{
    if to > -n {
        lemma_ranged_wide(p, pass, x, y, n, n2, log2, to - 1, bd);
        lemma_ranged_sum(p, pass, x, y, n, n2, to - 1, n + 1, bd);
        lemma_p2_values();
        let (v, w) = (p2(bd) - 1, 2 * n + 2 + 2 * n2);
        assert(w == p2(log2));
        let sum = wide_sum(p, pass, x, y, n, n2, to - 1, n + 1);
        assert(sum <= v * w);
        if log2 == 3 {
            assert(v * w == 8 * v) by (nonlinear_arith)
                requires
                    w == 8,
            ;
            assert((sum + 4) / 8 <= v);
        } else {
            assert(v * w == 16 * v) by (nonlinear_arith)
                requires
                    w == 16,
            ;
            assert((sum + 8) / 16 <= v);
        }
        assert(wide_value(p, pass, x, y, n, n2, log2, to - 1) <= v);
        lemma_ranged_tap(
            wide_to(p, pass, x, y, n, n2, log2, to - 1),
            pass,
            x,
            y,
            to - 1,
            wide_value(p, pass, x, y, n, n2, log2, to - 1),
            bd,
        );
    }
}

/// Filtering a boundary sample keeps a plane's range.
proof fn lemma_ranged_sample(p: Samples, plane: int, pass: int, x: int, y: int, s: Strength, size: int, bd: int)
    requires
        ranged(p, bd),
        8 <= bd <= 16,
    ensures
        ranged(sample_filtered(p, plane, pass, x, y, s, size, bd), bd),
{
    reveal(sample_filtered);
    lemma_ranged_narrow(p, pass, x, y, high_variance(p, pass, x, y, s.thresh * p2(bd - 8)), bd);
    if plane == 0 {
        lemma_ranged_wide(p, pass, x, y, 3, 0, 3, 3, bd);
    } else {
        lemma_ranged_wide(p, pass, x, y, 2, 1, 3, 2, bd);
    }
    lemma_ranged_wide(p, pass, x, y, 6, 1, 4, 6, bd);
}

/// Filtering along a unit's boundary keeps a plane's range.
proof fn lemma_ranged_along(d: Filtering, p: Samples, plane: int, pass: int, row: int, col: int, n: int)
    requires
        8 <= d.bit_depth <= 16,
        ranged(p, d.bit_depth),
    ensures
        ranged(d.along(p, plane, pass, row, col, n), d.bit_depth),
    decreases n,
{
    if n > 0 {
        lemma_ranged_along(d, p, plane, pass, row, col, n - 1);
        lemma_ranged_sample(
            d.along(p, plane, pass, row, col, n - 1),
            plane,
            pass,
            4 * col + if pass == 0 {
                0
            } else {
                n - 1
            },
            4 * row + if pass == 0 {
                n - 1
            } else {
                0
            },
            strength(d.loop_filter, plane, pass),
            d.width_across(plane, pass, row, col),
            d.bit_depth,
        );
    }
}

/// Filtering the first units keeps a plane's range.
proof fn lemma_ranged_units(d: Filtering, p: Samples, plane: int, pass: int, n: int)
    requires
        8 <= d.bit_depth <= 16,
        ranged(p, d.bit_depth),
    ensures
        ranged(d.units_filtered(p, plane, pass, n), d.bit_depth),
    decreases n,
{
    if n > 0 {
        lemma_ranged_units(d, p, plane, pass, n - 1);
        let (row, col) = ((n - 1) / d.mi_cols, (n - 1) % d.mi_cols);
        lemma_ranged_along(d, d.units_filtered(p, plane, pass, n - 1), plane, pass, row, col, 4);
    }
}

/// The loop filter never takes a sample out of the range of the bit depth.
pub proof fn lemma_filtering_keeps_range(d: Filtering, p: Samples, plane: int)
    requires
        8 <= d.bit_depth <= 16,
        ranged(p, d.bit_depth),
    ensures
        ranged(d.plane_filtered(p, plane), d.bit_depth),
{
    let units = d.mi_rows * d.mi_cols;
    lemma_ranged_units(d, p, plane, 0, units);
    lemma_ranged_units(d, d.units_filtered(p, plane, 0, units), plane, 1, units);
}

} // verus!
