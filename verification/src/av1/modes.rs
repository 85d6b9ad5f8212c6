//! The distributions of a tile's mode symbols, and the stream they are read from.
use super::cdf::{lemma_turn, rises, rows_hold, rows_ok, same_shape, turn, CdfTable};
use super::coeff::{next, Coded};
use super::symbol::{adapt_entry, adapt_rate, adapted, cdf_ok, decode, literal, start, symbol_addressable, uniform, SymbolDecoder};
use crate::error::Outcome;
use crate::math::{lemma_p2_pos, p2};
use vstd::prelude::*;

verus! {

/// Partition types: four contexts for each block side, from 8 samples up.
pub const ROW_PARTITION: usize = 0;

/// Whether a block has a residual, by context.
pub const ROW_SKIP_FLAG: usize = 20;

/// Luma modes, by the contexts of the modes above and to the left.
pub const ROW_Y_MODE: usize = 23;

/// Chroma modes where they may be predicted from luma, by luma mode.
pub const ROW_UV_CFL: usize = 48;

/// Chroma modes where they may not, by luma mode.
pub const ROW_UV: usize = 61;

/// Angle deltas, by directional mode.
pub const ROW_ANGLE: usize = 74;

/// Whether the recursive filter is used, by block size.
pub const ROW_FILTER: usize = 82;

/// The recursive filter's kernel.
pub const ROW_FILTER_MODE: usize = 104;

/// Whether luma has a palette, by block size and context.
pub const ROW_PALETTE_Y: usize = 105;

/// Whether chroma has a palette, by context.
pub const ROW_PALETTE_UV: usize = 126;

/// Luma palette sizes, by block size.
pub const ROW_PALETTE_Y_SIZE: usize = 128;

/// Chroma palette sizes, by block size.
pub const ROW_PALETTE_UV_SIZE: usize = 135;

/// Luma colour indices, by palette size and context.
pub const ROW_COLOUR_Y: usize = 142;

/// Chroma colour indices, by palette size and context.
pub const ROW_COLOUR_UV: usize = 177;

/// The signs of the two factors of a prediction from luma.
pub const ROW_CFL_SIGN: usize = 212;

/// The magnitudes of the factors, by context.
pub const ROW_CFL_ALPHA: usize = 213;

/// The rows in all.
pub const MODE_ROWS: usize = 219;

/// The rows of a mode table: each family with its number of symbols, and partition
/// frequencies that never fall.
pub open spec fn mode_rows(rows: Seq<Seq<u16>>) -> bool {
    &&& rows_ok(rows)
    &&& rows.len() == MODE_ROWS
    &&& rows_hold(rows, 0, 4, 4)
    &&& rows_hold(rows, 4, 12, 10)
    &&& rows_hold(rows, 16, 4, 8)
    &&& rows_hold(rows, 20, 3, 2)
    &&& rows_hold(rows, 23, 25, 13)
    &&& rows_hold(rows, 48, 13, 14)
    &&& rows_hold(rows, 61, 13, 13)
    &&& rows_hold(rows, 74, 8, 7)
    &&& rows_hold(rows, 82, 22, 2)
    &&& rows_hold(rows, 104, 1, 5)
    &&& rows_hold(rows, 105, 21, 2)
    &&& rows_hold(rows, 126, 2, 2)
    &&& rows_hold(rows, 128, 14, 7)
    &&& forall|i: int| 0 <= i < 35 ==> (#[trigger] rows[ROW_COLOUR_Y + i]).len() == 3 + i / 5
    &&& forall|i: int| 0 <= i < 35 ==> (#[trigger] rows[ROW_COLOUR_UV + i]).len() == 3 + i / 5
    &&& rows_hold(rows, 212, 1, 8)
    &&& rows_hold(rows, 213, 6, 16)
    &&& forall|i: int| 0 <= i < 20 ==> rises(#[trigger] rows[i])
}

/// Whether the colour rows from `base` on are over as many symbols as their palettes
/// have colours.
fn colours_hold(table: &CdfTable, base: usize) -> (r: bool)
    requires
        base + 35 <= table@.len(),
        base <= ROW_COLOUR_UV,
    ensures
        r == (forall|i: int| 0 <= i < 35 ==> (#[trigger] table@[base + i]).len() == 3 + i / 5),
{
    let mut i: usize = 0;
    while i < 35
        invariant
            i <= 35,
            base + 35 <= table@.len(),
            base <= ROW_COLOUR_UV,
            forall|k: int| 0 <= k < i ==> (#[trigger] table@[base + k]).len() == 3 + k / 5,
        decreases 35 - i,
    {
        if !table.hold(base + i, 1, 2 + i / 5) {
            assert(table@[base + i].len() != 3 + i / 5);
            return false;
        }
        assert(table@[base + i].len() == 3 + i / 5);
        i = i + 1;
    }
    true
}

/// Whether the frequencies of the first rows never fall.
fn first_rise(table: &CdfTable, count: usize) -> (r: bool)
    requires
        count <= table@.len(),
    ensures
        r == (forall|i: int| 0 <= i < count ==> rises(#[trigger] table@[i])),
{
    let mut i: usize = 0;
    while i < count
        invariant
            i <= count <= table@.len(),
            forall|k: int| 0 <= k < i ==> rises(#[trigger] table@[k]),
        decreases count - i,
    {
        if !table.row_rises(i) {
            return false;
        }
        i = i + 1;
    }
    true
}

/// Whether a table is a mode table.
pub fn is_mode_table(table: &CdfTable) -> (r: bool)
    ensures
        r == mode_rows(table@),
{
    table.are_distributions() && table.len() == MODE_ROWS && table.hold(0, 4, 4) && table.hold(4, 12, 10) && table.hold(
        16,
        4,
        8,
    ) && table.hold(20, 3, 2) && table.hold(23, 25, 13) && table.hold(48, 13, 14) && table.hold(61, 13, 13)
        && table.hold(74, 8, 7) && table.hold(82, 22, 2) && table.hold(104, 1, 5) && table.hold(105, 21, 2)
        && table.hold(126, 2, 2) && table.hold(128, 14, 7) && colours_hold(table, ROW_COLOUR_Y) && colours_hold(
        table,
        ROW_COLOUR_UV,
    ) && table.hold(212, 1, 8) && table.hold(213, 6, 16) && first_rise(table, 20)
}

/// An adapted frequency does not overtake another.
proof fn lemma_adapt_order(a: int, b: int, a_above: bool, b_above: bool, rate: int)
    requires
        0 <= a <= b <= 32768,
        a_above ==> b_above,
    ensures
        adapt_entry(a, a_above, rate) <= adapt_entry(b, b_above, rate),
{
    lemma_p2_pos(rate);
    let d = p2(rate);
    let (x, y) = (32768 - a, 32768 - b);
    assert(0 <= x / d - y / d <= x - y && 0 <= b / d - a / d <= b - a && a / d >= 0 && y / d >= 0) by (nonlinear_arith)
        requires
            d >= 1,
            0 <= a <= b,
            0 <= y <= x,
            x - y == b - a,
    ;
}

/// Adapting keeps frequencies from falling.
proof fn lemma_adapted_rises(cdf: Seq<u16>, symbol: int)
    requires
        cdf_ok(cdf),
        rises(cdf),
    ensures
        rises(adapted(cdf, symbol)),
{
    let r = adapted(cdf, symbol);
    let n = cdf.len() - 1;
    let rate = adapt_rate(cdf);
    assert forall|j: int, k: int| 0 <= j < k < r.len() - 1 implies #[trigger] r[j] <= #[trigger] r[k] by {
        assert(cdf[j] <= cdf[k] && cdf[j] <= 32768 && cdf[k] <= 32768);
        lemma_adapt_order(cdf[j] as int, cdf[k] as int, j >= symbol, k >= symbol, rate);
        lemma_adapt_range(cdf[j] as int, j >= symbol, rate);
        lemma_adapt_range(cdf[k] as int, k >= symbol, rate);
    }
}

/// An adapted frequency stays a frequency.
proof fn lemma_adapt_range(c: int, above: bool, rate: int)
    requires
        0 <= c <= 32768,
    ensures
        0 <= adapt_entry(c, above, rate) <= 32768,
{
    lemma_p2_pos(rate);
    crate::math::lemma_quotient_bound(c, p2(rate));
    crate::math::lemma_quotient_bound(32768 - c, p2(rate));
}

/// Whether a state of the stream is well formed.
pub open spec fn flows(st: Coded) -> bool {
    st.sym.wf() && mode_rows(st.rows)
}

/// Reading a symbol keeps the stream well formed, and gives a symbol of its row.
pub proof fn lemma_flows(st: Coded, k: int)
    requires
        flows(st),
        0 <= k < MODE_ROWS,
    ensures
        flows(next(st, false, k).1),
        0 <= next(st, false, k).0 < st.rows[k].len() - 1,
{
    lemma_turn(st.sym, st.rows, false, k);
    let after = next(st, false, k).1.rows;
    assert(same_shape(st.rows, after));
    assert forall|i: int| 0 <= i < MODE_ROWS implies (#[trigger] after[i]).len() == st.rows[i].len() by {}
    assert forall|i: int| 0 <= i < 20 implies rises(#[trigger] after[i]) by {
        reveal(turn);
        assert(rises(st.rows[i]));
        assert(cdf_ok(st.rows[i]));
        lemma_adapted_rises(st.rows[i], next(st, false, k).0);
    }
    assert forall|i: int| 0 <= i < 35 implies (#[trigger] after[ROW_COLOUR_Y + i]).len() == 3 + i / 5 by {
        assert(st.rows[ROW_COLOUR_Y + i].len() == 3 + i / 5);
    }
    assert forall|i: int| 0 <= i < 35 implies (#[trigger] after[ROW_COLOUR_UV + i]).len() == 3 + i / 5 by {
        assert(st.rows[ROW_COLOUR_UV + i].len() == 3 + i / 5);
    }
}

/// A number of `n` bits, and the stream after it.
pub open spec fn number(st: Coded, n: int) -> (int, Coded) {
    let t = literal(st.sym, n);
    (t.0, Coded { sym: t.1, ..st })
}

/// A value below `n`, and the stream after it.
pub open spec fn below(st: Coded, n: int) -> (int, Coded) {
    let t = uniform(st.sym, n);
    (t.0, Coded { sym: t.1, ..st })
}

/// An entry of a row, zero where there is none.
pub open spec fn entry_or_zero(row: Seq<u16>, k: int) -> int {
    if 0 <= k < row.len() {
        row[k] as int
    } else {
        0
    }
}

/// The probability of a partition type.
pub open spec fn share(row: Seq<u16>, k: int) -> int {
    entry_or_zero(row, k) - entry_or_zero(row, k - 1)
}

/// The probability of a split where a block hangs over the bottom (`horz`) or the
/// right: that of every type that cuts the other way.
pub open spec fn split_share(row: Seq<u16>, horz: bool, largest: bool) -> int {
    if horz {
        share(row, 2) + share(row, 3) + share(row, 4) + share(row, 6) + share(row, 7) + (if largest {
            0
        } else {
            share(row, 9)
        })
    } else {
        share(row, 1) + share(row, 3) + share(row, 4) + share(row, 5) + share(row, 6) + (if largest {
            0
        } else {
            share(row, 8)
        })
    }
}

/// The distribution of whether a block is split.
pub open spec fn split_cdf(row: Seq<u16>, horz: bool, largest: bool) -> Seq<u16> {
    seq![(32768 - split_share(row, horz, largest)) as u16, 32768u16, 0u16]
}

/// Whether a block that hangs over an edge is split, and the stream after it.
pub open spec fn split_or(st: Coded, k: int, horz: bool, largest: bool) -> (bool, Coded) {
    let t = decode(st.sym, split_cdf(st.rows[k], horz, largest));
    (t.0 != 0, Coded { sym: t.1, ..st })
}

/// The probability of a split is one.
proof fn lemma_split_share(rows: Seq<Seq<u16>>, k: int, horz: bool)
    requires
        mode_rows(rows),
        4 <= k < 20,
    ensures
        0 <= split_share(rows[k], horz, k >= 16) <= 32768,
        cdf_ok(split_cdf(rows[k], horz, k >= 16)),
{
    let row = rows[k];
    assert(rises(row));
    assert(cdf_ok(row));
    assert(row[0] <= row[1] && row[1] <= row[2] && row[2] <= row[3] && row[3] <= row[4] && row[4] <= row[5] && row[5]
        <= row[6] && row[6] <= row[7]);
    if k < 16 {
        assert(row.len() == 11);
        assert(row[7] <= row[8] && row[8] <= row[9]);
        assert(row[9] == 32768);
    } else {
        assert(row.len() == 9);
        assert(row[7] == 32768);
    }
}

/// A tile's symbols, with the distributions of its modes.
pub struct Stream<'a> {
    /// The decoder.
    pub dec: SymbolDecoder<'a>,
    /// The distributions.
    pub modes: CdfTable,
}

impl<'a> View for Stream<'a> {
    type V = Coded;

    open spec fn view(&self) -> Coded {
        Coded { sym: self.dec.sym(), rows: self.modes@ }
    }
}

impl<'a> Stream<'a> {
    /// Both parts are well formed, and distributions adapt.
    pub open spec fn wf(&self) -> bool {
        &&& self.dec.wf()
        &&& !self.dec.frozen()
        &&& mode_rows(self.modes@)
    }

    /// The symbols of a tile, from the distributions that it starts with.
    pub fn new(data: &'a [u8], defaults: &CdfTable) -> (r: Outcome<Stream<'a>>)
        requires
            symbol_addressable(data@.len()),
            mode_rows(defaults@),
        ensures
            r is Ok,
            r->Ok_0.wf(),
            r->Ok_0@ == (Coded { sym: start(data@), rows: defaults@ }),
    {
        let dec = SymbolDecoder::new(data, false)?;
        Ok(Stream { dec, modes: defaults.duplicate() })
    }

    /// Read a symbol through a row.
    pub fn pick(&mut self, k: usize) -> (r: Outcome<usize>)
        requires
            old(self).wf(),
            k < MODE_ROWS,
        ensures
            r is Ok,
            (r->Ok_0 as int, final(self)@) == next(old(self)@, false, k as int),
            r->Ok_0 < old(self)@.rows[k as int].len() - 1,
            final(self).wf(),
    {
        proof {
            lemma_flows(self@, k as int);
        }
        self.modes.read(&mut self.dec, k)
    }

    /// Read a number of `n` bits.
    pub fn number(&mut self, n: u32) -> (r: Outcome<u32>)
        requires
            old(self).wf(),
            n <= 32,
        ensures
            r is Ok,
            (r->Ok_0 as int, final(self)@) == number(old(self)@, n as int),
            r->Ok_0 < p2(n as int),
            final(self).wf(),
    {
        self.dec.read_literal(n)
    }

    /// Read a value below `n`.
    pub fn below(&mut self, n: u32) -> (r: Outcome<u32>)
        requires
            old(self).wf(),
            n < 0x8000_0000,
        ensures
            r is Ok,
            (r->Ok_0 as int, final(self)@) == below(old(self)@, n as int),
            n > 0 ==> r->Ok_0 < n,
            final(self).wf(),
    {
        self.dec.read_ns(n)
    }

    /// An entry of a row, zero where there is none.
    fn entry(&self, k: usize, at: usize) -> (r: i32)
        requires
            k < self.modes@.len(),
        ensures
            r == entry_or_zero(self.modes@[k as int], at as int),
            0 <= r <= 65535,
    {
        self.modes.entry(k, at) as i32
    }

    /// Read whether a block that hangs over an edge is split. The partition
    /// distribution that decides is not adapted.
    pub fn split_or(&mut self, k: usize, horz: bool) -> (r: Outcome<bool>)
        requires
            old(self).wf(),
            4 <= k < 20,
        ensures
            r is Ok,
            (r->Ok_0, final(self)@) == split_or(old(self)@, k as int, horz, k >= 16),
            final(self).wf(),
    {
        proof {
            lemma_split_share(self.modes@, k as int, horz);
        }
        let largest = k >= 16;
        let mut sum: i32 = if horz {
            (self.entry(k, 4) - self.entry(k, 1)) + (self.entry(k, 7) - self.entry(k, 5))
        } else {
            (self.entry(k, 1) - self.entry(k, 0)) + (self.entry(k, 6) - self.entry(k, 2))
        };
        if !largest {
            sum = sum + (if horz {
                self.entry(k, 9) - self.entry(k, 8)
            } else {
                self.entry(k, 8) - self.entry(k, 7)
            });
        }
        assert(sum == split_share(self.modes@[k as int], horz, largest));
        let mut derived = [(32768 - sum) as u16, 32768, 0];
        assert(derived@ =~= split_cdf(self.modes@[k as int], horz, largest));
        let symbol = self.dec.read_symbol(&mut derived)?;
        Ok(symbol != 0)
    }
}

} // verus!
