//! What holds of a two-dimensional transform: rows are transformed across and columns down,
//! and what is scaled away goes by the area.
use super::butterfly::{lemma_transformed_zero, zero, Kind};
use super::transform::{Cells, Inverse, TxSize, TRANSFORM_ROW_SHIFT};
use super::waves::lemma_first_value_is_flat;
use crate::math::{lemma_p2_mono, lemma_p2_pos, lemma_p2_values, p2, round2};
use vstd::prelude::*;

verus! {

/// The shift between the passes and the dequantiser's denominator together take out the
/// square root of the area, down to the four by four block.
pub proof fn lemma_scale_by_area(size: TxSize)
    ensures
        p2(TRANSFORM_ROW_SHIFT@[size.code()] as int) * size.denominator() == p2((size.wlog() + size.hlog()) / 2 - 2),
{
    lemma_p2_values();
}

/// A value within so many bits stays within them when it is scaled by the cosine of an
/// eighth of a turn.
proof fn lemma_scaled_down_fits(x: int, bits: int)
    requires
        8 <= bits <= 24,
        -p2(bits - 1) <= x < p2(bits - 1),
    ensures
        -p2(bits - 1) <= round2(x * 2896, 12) < p2(bits - 1),
        -0x80_0000 <= x < 0x80_0000,
{
    lemma_p2_values();
    lemma_p2_mono(7, bits - 1);
    lemma_p2_mono(bits - 1, 23);
    lemma_p2_pos(bits - 1);
    assert(p2(23) == 0x80_0000) by {
        crate::math::lemma_p2_add(20, 3);
    }
    assert(p2(7) == 128);
}

/// A row of nothing stays nothing between the passes.
proof fn lemma_blank_row(g: Inverse, d: Cells, i: int, j: int)
    requires
        !g.lossless,
        8 <= g.depth <= 16,
        0 <= i < 64,
        0 <= j < g.size.w(),
        forall|x: int| #[trigger] d(i, x) == 0,
    ensures
        g.between(d, i, j) == 0,
{
    lemma_p2_values();
    lemma_p2_pos(g.range() - 1);
    let t = g.row_in(d, i);
    assert(zero(t)) by {
        assert forall|k: int| 0 <= k < 64 implies #[trigger] t[k] == 0 by {
            assert(d(i, k) == 0);
        }
    }
    lemma_transformed_zero(t, g.ty.across(), g.size.wlog(), g.depth + 8);
    assert(g.row_out(d, i)[j] == 0);
}

/// Columns are transformed down: coefficients in the first row alone, under a DCT down the
/// columns, give every row the same residual.
pub proof fn lemma_first_row_is_even_down(g: Inverse, d: Cells, i: int, j: int)
    requires
        !g.lossless,
        8 <= g.depth <= 16,
        g.ty.down() == Kind::Dct,
        forall|y: int, x: int| y != 0 ==> #[trigger] d(y, x) == 0,
        0 <= i < g.size.h(),
        0 <= j < g.size.w(),
    ensures
        g.residual(d, i, j) == g.residual(d, 0, j),
{
    lemma_p2_values();
    let t = g.col_in(d, j);
    assert forall|k: int| 1 <= k < 64 implies #[trigger] t[k] == 0 by {
        if k < g.size.h() {
            lemma_blank_row(g, d, k, j);
        }
    }
    lemma_p2_pos(g.range() - 1);
    let b = g.between(d, 0, j);
    assert(-p2(g.range() - 1) <= b < p2(g.range() - 1));
    lemma_scaled_down_fits(b, g.range());
    assert(t[0] == b);
    lemma_first_value_is_flat(t, g.size.hlog(), g.range(), i);
    lemma_first_value_is_flat(t, g.size.hlog(), g.range(), 0);
}

/// Rows are transformed across: coefficients in the first column alone, under a DCT across
/// the rows, give every column the same residual.
pub proof fn lemma_first_column_is_even_across(g: Inverse, d: Cells, i: int, j: int)
    requires
        !g.lossless,
        8 <= g.depth <= 16,
        g.ty.across() == Kind::Dct,
        forall|y: int, x: int| x != 0 ==> #[trigger] d(y, x) == 0,
        forall|y: int, x: int| -p2(g.depth + 7) <= #[trigger] d(y, x) < p2(g.depth + 7),
        0 <= i < g.size.h(),
        0 <= j < g.size.w(),
    ensures
        g.residual(d, i, j) == g.residual(d, i, 0),
{
    lemma_p2_values();
    lemma_p2_pos(g.size.hlog());
    assert forall|y: int| 0 <= y < 64 implies #[trigger] g.between(d, y, j) == g.between(d, y, 0) by {
        let t = g.row_in(d, y);
        assert forall|k: int| 1 <= k < 64 implies #[trigger] t[k] == 0 by {
            assert(d(y, k) == 0);
        }
        lemma_p2_pos(g.depth + 7);
        let x = if y < 32 {
            d(y, 0)
        } else {
            0
        };
        assert(-p2(g.depth + 7) <= x < p2(g.depth + 7));
        lemma_scaled_down_fits(x, g.depth + 8);
        lemma_scaled_down_fits(round2(x * 2896, 12), g.depth + 8);
        assert(t[0] == x || t[0] == round2(x * 2896, 12));
        lemma_first_value_is_flat(t, g.size.wlog(), g.depth + 8, j);
        lemma_first_value_is_flat(t, g.size.wlog(), g.depth + 8, 0);
    }
    assert(g.col_in(d, j) =~= g.col_in(d, 0)) by {
        assert forall|y: int| 0 <= y < 64 implies #[trigger] g.col_in(d, j)[y] == g.col_in(d, 0)[y] by {
            assert(g.between(d, y, j) == g.between(d, y, 0));
        }
    }
}

} // verus!
