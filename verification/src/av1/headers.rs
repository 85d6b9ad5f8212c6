//! What holds of the headers of a stream: where its units lie, how a frame is sized and
//! how it is cut into tiles.
use super::bits::{bits, lemma_bits_concat, lemma_bits_bound};
use super::codes::{lemma_bits_of_byte, lemma_leb128_reads_back, sevens_at};
use super::frame::{even_starts, frame_size_at, gap, grid_of, qindex, segment_lossless, FrameSizeModel, Grid, Quantization, SegmentationModel};
use super::obu::{obu_at, obu_type, obus_from};
use super::seq::SequenceModel;
use crate::math::{lemma_p2_pos, lemma_p2_values, p2};
use vstd::prelude::*;

verus! {

/// A unit without an extension that says its size: one byte with its type, then the size in
/// groups of seven bits, then that many bytes. One that does not say its size takes the
/// rest.
pub proof fn lemma_unit_lies(data: Seq<u8>, pos: int, kind: int, n: int, len: int)
    requires
        0 <= pos < data.len(),
        0 <= kind < 16,
    ensures
        data[pos] == 8 * kind + 2 && 1 <= n <= 8 && sevens_at(data.subrange(pos, data.len() as int), 8, len, n) && pos + 1
            + n + len <= data.len() ==> (obu_at(data, pos) matches Some(o) && o.header.kind == obu_type(kind as u32)
            && o.start == pos + 1 + n && o.end == pos + 1 + n + len && o.header.temporal_id == 0 && o.header.spatial_id == 0),
        data[pos] == 8 * kind ==> (obu_at(data, pos) matches Some(o) && o.header.kind == obu_type(kind as u32) && o.start
            == pos + 1 && o.end == data.len()),
        data[pos] >= 128 ==> obu_at(data, pos) is None,
{
    let rest = data.subrange(pos, data.len() as int);
    let x = data[pos] as int;
    assert(rest[0] == x);
    lemma_bits_of_byte(rest, 0);
    lemma_p2_values();
    lemma_bits_concat(rest, 0, 1, 7);
    lemma_bits_concat(rest, 1, 4, 3);
    lemma_bits_concat(rest, 5, 1, 2);
    lemma_bits_concat(rest, 6, 1, 1);
    lemma_bits_bound(rest, 0, 1);
    lemma_bits_bound(rest, 1, 4);
    lemma_bits_bound(rest, 5, 1);
    lemma_bits_bound(rest, 6, 1);
    lemma_bits_bound(rest, 7, 1);
    let (a, b) = (bits(rest, 0, 1), bits(rest, 1, 4));
    let (c, d, e) = (bits(rest, 5, 1), bits(rest, 6, 1), bits(rest, 7, 1));
    assert(bits(rest, 0, 1int + 7) == a * 128 + bits(rest, 1, 7));
    assert(bits(rest, 1, 4int + 3) == b * 8 + bits(rest, 5, 3));
    assert(bits(rest, 5, 1int + 2) == c * 4 + bits(rest, 6, 2));
    assert(bits(rest, 6, 1int + 1) == d * 2 + e);
    assert(x == 128 * a + 8 * b + 4 * c + 2 * d + e);
    if x == 8 * kind + 2 {
        assert(a == 0 && b == kind && c == 0 && d == 1 && e == 0);
        if 1 <= n <= 8 && sevens_at(rest, 8, len, n) {
            lemma_leb128_reads_back(rest, 8, len, n);
        }
    }
    if x == 8 * kind {
        assert(a == 0 && b == kind && c == 0 && d == 0 && e == 0);
    }
}

/// Units lie one behind the other without a gap: the first at the start, each next one where
/// the one before it ends, and the last ends with the data.
pub proof fn lemma_units_lie_in_a_row(data: Seq<u8>, pos: int, i: int)
    requires
        0 <= pos,
        obus_from(data, pos) is Some,
        0 <= i < (obus_from(data, pos)->0).len(),
    ensures
        ({
            let u = obus_from(data, pos)->0;
            let from = if i == 0 {
                pos
            } else {
                u[i - 1].end
            };
            &&& obu_at(data, from) == Some(u[i])
            &&& pos <= from < u[i].end
            &&& i == u.len() - 1 ==> u[i].end >= data.len()
        }),
    decreases data.len() - pos,
{
    let u = obus_from(data, pos)->0;
    let first = obu_at(data, pos)->0;
    let rest = obus_from(data, first.end)->0;
    assert(u == seq![first] + rest);
    if i > 0 {
        assert(u[i] == rest[i - 1]);
        lemma_units_lie_in_a_row(data, first.end, i - 1);
        if i > 1 {
            assert(u[i - 1] == rest[i - 2]);
        }
    } else if u.len() == 1 && first.end < data.len() {
        assert(rest.len() > 0);
    }
}

/// The units of four samples cover a frame, in pairs, and no pair is outside of it.
pub proof fn lemma_units_cover_the_frame(size: FrameSizeModel)
    ensures
        size.mi_cols() % 2 == 0,
        size.mi_rows() % 2 == 0,
        size.width <= 4 * size.mi_cols() < size.width + 8,
        size.height <= 4 * size.mi_rows() < size.height + 8,
{
}

/// A frame that is not scaled is as wide as it is shown; one that is, has that many eighths
/// less of it as its denominator says, to the nearest sample.
pub proof fn lemma_scaled_width(data: Seq<u8>, pos: int, m: SequenceModel, size_override: bool)
    requires
        m.size.max_size.0 >= 1,
        m.size.size_bits.0 >= 0,
        m.size.size_bits.1 >= 0,
    ensures
        ({
            let s = frame_size_at(data, pos, m, size_override).0;
            &&& 8 <= s.denom <= 16
            &&& s.upscaled >= 1
            &&& s.denom == 8 ==> s.width == s.upscaled
            &&& !m.superres ==> s.denom == 8
            &&& s.width <= s.upscaled
            &&& -s.denom <= 2 * s.denom * s.width - 16 * s.upscaled <= s.denom
            &&& !size_override ==> s.upscaled == m.size.max_size.0 && s.height == m.size.max_size.1
            &&& size_override ==> s.upscaled == bits(data, pos, m.size.size_bits.0) + 1 && s.height == bits(
                data,
                pos + m.size.size_bits.0,
                m.size.size_bits.1,
            ) + 1
        }),
{
    reveal(frame_size_at);
    let s = frame_size_at(data, pos, m, size_override).0;
    lemma_bits_bound(data, pos, m.size.size_bits.0);
    let at = if size_override {
        pos + m.size.size_bits.0 + m.size.size_bits.1
    } else {
        pos
    };
    lemma_bits_bound(data, at + 1, 3);
    lemma_bits_bound(data, at, 3);
    lemma_p2_values();
    let (d, u, w) = (s.denom, s.upscaled, s.width);
    assert(w == (u * 8 + d / 2) / d);
    assert(8 <= d <= 16);
    assert(u >= 1);
    assert(d == 8 ==> w == u) by (nonlinear_arith)
        requires
            w == (u * 8 + d / 2) / d,
    ;
    assert(-d <= 2 * d * w - 16 * u <= d && (u >= 1 && d >= 8 ==> w <= u)) by (nonlinear_arith)
        requires
            w == (u * 8 + d / 2) / d,
            8 <= d <= 16,
            u >= 1,
    ;
}

/// The grid of superblocks covers the units of a frame, and no superblock is outside of it.
pub proof fn lemma_grid_covers(sb128: bool, mi_cols: int, mi_rows: int)
    requires
        0 <= mi_cols,
        0 <= mi_rows,
    ensures
        ({
            let g = grid_of(sb128, mi_cols, mi_rows);
            &&& sb128 ==> mi_cols <= 32 * g.cols < mi_cols + 32 && mi_rows <= 32 * g.rows < mi_rows + 32
            &&& !sb128 ==> mi_cols <= 16 * g.cols < mi_cols + 16 && mi_rows <= 16 * g.rows < mi_rows + 16
            &&& sb128 ==> 128 * g.max_width == 4096 && 128 * 128 * g.max_area == 4096 * 2304
            &&& !sb128 ==> 64 * g.max_width == 4096 && 64 * 64 * g.max_area == 4096 * 2304
        }),
{
}

/// Evenly spaced tiles start one step after the other from the first on, each before the end,
/// and end where there is nothing left.
pub proof fn lemma_even_tiles(start: int, step: int, n: int, i: int)
    requires
        0 <= start,
        1 <= step,
        0 <= n <= 0xFFFF_FFFF,
        0 <= i < even_starts(start, step, n).len() - 1,
    ensures
        ({
            let s = even_starts(start, step, n);
            &&& s[i] == start + i * step
            &&& s[i] < n
            &&& s.last() == n
            &&& i == s.len() - 2 ==> s[i] + step >= n
        }),
    decreases gap(n, start),
{
    let s = even_starts(start, step, n);
    if start < n {
        let rest = even_starts(start + step, step, n);
        assert(s == seq![start as u32] + rest);
        lemma_even_end(start + step, step, n);
        if i > 0 {
            lemma_even_tiles(start + step, step, n, i - 1);
            assert(s[i] == rest[i - 1]);
            assert(i * step == (i - 1) * step + step) by (nonlinear_arith);
        } else {
            assert(0 * step == 0);
            if s.len() == 2 {
                assert(rest.len() == 1);
                if start + step < n {
                    lemma_even_end(start + 2 * step, step, n);
                }
            }
        }
    }
}

/// Evenly spaced tiles end at the end.
proof fn lemma_even_end(start: int, step: int, n: int)
    requires
        1 <= step,
        0 <= n <= 0xFFFF_FFFF,
    ensures
        even_starts(start, step, n).len() >= 1,
        even_starts(start, step, n).last() == n,
    decreases gap(n, start),
{
    if start < n {
        lemma_even_end(start + step, step, n);
    }
}

/// The step of `2^k` tiles is the least that covers.
pub proof fn lemma_step_covers(n: int, k: int)
    requires
        1 <= n,
        0 <= k,
    ensures
        Grid::step(n, k) * p2(k) >= n,
        (Grid::step(n, k) - 1) * p2(k) < n,
{
    lemma_p2_pos(k);
    let (s, d) = (Grid::step(n, k), p2(k));
    assert(s * d >= n && (s - 1) * d < n) by (nonlinear_arith)
        requires
            s == (n + d - 1) / d,
            d >= 1,
    ;
}

/// A segment's quantiser is the frame's, moved by the segment's own where it has one, and held
/// to a byte; it is lossless only at zero.
pub proof fn lemma_segment_quantiser(seg: SegmentationModel, quant: Quantization, segment: int)
    ensures
        0 <= qindex(seg, quant, segment) <= 255,
        !seg.enabled ==> qindex(seg, quant, segment) == quant.base_q_idx,
        seg.enabled && seg.on[8 * segment] && 0 <= quant.base_q_idx + seg.values[8 * segment] <= 255 ==> qindex(
            seg,
            quant,
            segment,
        ) == quant.base_q_idx + seg.values[8 * segment],
        segment_lossless(seg, quant, segment) ==> qindex(seg, quant, segment) == 0,
        !seg.enabled && quant.base_q_idx > 0 ==> !segment_lossless(seg, quant, segment),
{
}

} // verus!
