//! Coefficient decoding for 4 by 4 lossless transform blocks.
//!
//! A transform block's residual is coded as a sparse array of levels. The stream
//! holds, in order: whether the whole block is zero, the end-of-block position,
//! the base level of each coefficient walking the scan backwards from the last,
//! with a magnitude extension for large levels, and finally the signs walking
//! forwards, with a Golomb tail for the largest magnitudes. Every symbol is coded
//! against a distribution that the levels already read select.
use super::cdf::{lemma_turn, rows_hold, rows_ok, same_shape, turn, CdfTable};
use super::symbol::{decode, even_cdf, lemma_decode, literal, Sym, SymbolDecoder};
use crate::error::{ErrorCode, Outcome, PixelsError, fails_saying};
use crate::math::{lemma_p2_mono, lemma_p2_values, min, p2, pow2_usize};
use vstd::prelude::*;

verus! {

/// The number of base-level contexts.
pub const SIG_COEF_CONTEXTS: usize = 42;

/// The scan order of a 4 by 4 block.
pub const DEFAULT_SCAN_4X4: [usize; 16] = [0, 1, 4, 8, 5, 2, 3, 6, 9, 12, 13, 10, 7, 11, 14, 15];

/// The base of the base-level context, by row and column.
pub const COEFF_BASE_CTX_OFFSET_4X4: [[usize; 4]; 4] = [[0, 1, 6, 6], [1, 6, 6, 21], [6, 6, 21, 21], [6, 21, 21, 21]];

/// The first row for the whole-block zero flag, by context.
pub const ROW_SKIP: usize = 0;

/// The first row for the end-of-block class: two for each plane type.
pub const ROW_EOB_PT: usize = 13;

/// The first row for the first end-of-block bit: nine for each plane type.
pub const ROW_EOB_EXTRA: usize = 17;

/// The first row for the last coefficient's base level: four for each plane type.
pub const ROW_BASE_EOB: usize = 35;

/// The first row for a base level: 42 for each plane type.
pub const ROW_BASE: usize = 43;

/// The first row for a magnitude extension: 21 for each plane type.
pub const ROW_BR: usize = 127;

/// The first row for the sign of the first coefficient: three for each plane type.
pub const ROW_DC_SIGN: usize = 169;

/// The number of rows.
pub const COEFF_ROWS: usize = 175;

/// The rows of a coefficient table.
pub open spec fn coeff_rows(rows: Seq<Seq<u16>>) -> bool {
    &&& rows_ok(rows)
    &&& rows.len() == COEFF_ROWS
    &&& rows_hold(rows, ROW_EOB_PT as int, 4, 5)
    &&& rows_hold(rows, ROW_EOB_EXTRA as int, 18, 2)
    &&& rows_hold(rows, ROW_BASE_EOB as int, 8, 3)
    &&& rows_hold(rows, ROW_BASE as int, 84, 4)
    &&& rows_hold(rows, ROW_BR as int, 42, 4)
}

/// Whether a table is a coefficient table.
pub fn is_coeff_table(table: &CdfTable) -> (r: bool)
    ensures
        r == coeff_rows(table@),
{
    table.are_distributions() && table.len() == COEFF_ROWS && table.hold(ROW_EOB_PT, 4, 5) && table.hold(
        ROW_EOB_EXTRA,
        18,
        2,
    ) && table.hold(ROW_BASE_EOB, 8, 3) && table.hold(ROW_BASE, 84, 4) && table.hold(ROW_BR, 42, 4)
}

/// The coefficient distributions of one tile.
pub struct CoeffCdfs {
    /// The distributions.
    pub table: CdfTable,
}

impl CoeffCdfs {
    /// The rows are those of a coefficient table.
    pub open spec fn wf(&self) -> bool {
        coeff_rows(self.table@)
    }

    /// The distributions a tile starts from in quantiser context `qctx`: one of
    /// the four sets of defaults.
    pub fn new(defaults: &[CdfTable; 4], qctx: usize) -> (r: CoeffCdfs)
        requires
            forall|i: int| 0 <= i < 4 ==> coeff_rows((#[trigger] defaults@[i])@),
        ensures
            r.wf(),
            r.table@ == defaults@[min(qctx as int, 3)]@,
    {
        let q: usize = if qctx < 3 {
            qctx
        } else {
            3
        };
        CoeffCdfs { table: defaults[q].duplicate() }
    }
}

/// The decoder and the coefficient distributions, mid-stream.
#[verifier::ext_equal]
pub struct Coded {
    /// The symbol decoder.
    pub sym: Sym,
    /// The distributions.
    pub rows: Seq<Seq<u16>>,
}

impl Coded {
    /// Both parts are well formed.
    pub open spec fn wf(self) -> bool {
        self.sym.wf() && coeff_rows(self.rows)
    }
}

/// A symbol read through row `k`, and the state after it.
pub open spec fn next(st: Coded, frozen: bool, k: int) -> (int, Coded) {
    let t = turn(st.sym, st.rows, frozen, k);
    (t.0, Coded { sym: t.1, rows: t.2 })
}

/// An equiprobable bit, and the state after it.
pub open spec fn coin(st: Coded) -> (bool, Coded) {
    let t = decode(st.sym, even_cdf());
    (t.0 != 0, Coded { sym: t.1, ..st })
}

/// Reading a symbol keeps the state well formed.
pub proof fn lemma_next(st: Coded, frozen: bool, k: int)
    requires
        st.wf(),
        0 <= k < COEFF_ROWS,
    ensures
        next(st, frozen, k).1.wf(),
        0 <= next(st, frozen, k).0 < st.rows[k].len() - 1,
        ROW_EOB_PT <= k < ROW_EOB_EXTRA ==> next(st, frozen, k).0 < 5,
        ROW_EOB_EXTRA <= k < ROW_BASE_EOB ==> next(st, frozen, k).0 < 2,
        ROW_BASE_EOB <= k < ROW_BASE ==> next(st, frozen, k).0 < 3,
        ROW_BASE <= k < ROW_DC_SIGN ==> next(st, frozen, k).0 < 4,
{
    lemma_turn(st.sym, st.rows, frozen, k);
    let after = next(st, frozen, k).1.rows;
    assert(same_shape(st.rows, after));
    assert(st.rows[k].len() == after[k].len());
    assert forall|i: int| 0 <= i < COEFF_ROWS implies (#[trigger] after[i]).len() == st.rows[i].len() by {}
}

/// The magnitude, at most `cap`, that the level at a row and column adds to a context.
pub open spec fn near(quant: Seq<i32>, row: int, col: int, cap: int) -> int {
    if row < 4 && col < 4 {
        min(quant[4 * row + col] as int, cap)
    } else {
        0
    }
}

/// The base-level context at raster position `pos`, from the levels already read.
pub open spec fn base_context(quant: Seq<i32>, pos: int) -> int {
    let (row, col) = (pos / 4, pos % 4);
    let mag = near(quant, row, col + 1, 3) + near(quant, row + 1, col, 3) + near(quant, row + 1, col + 1, 3) + near(
        quant,
        row,
        col + 2,
        3,
    ) + near(quant, row + 2, col, 3);
    if pos == 0 {
        0
    } else {
        min((mag + 1) / 2, 4) + COEFF_BASE_CTX_OFFSET_4X4@[row]@[col]
    }
}

/// The context of the last coefficient's base level at scan index `c`.
pub open spec fn last_context(c: int) -> int {
    if c == 0 {
        0
    } else if c <= 2 {
        1
    } else if c <= 4 {
        2
    } else {
        3
    }
}

/// The context of a magnitude extension at raster position `pos`.
pub open spec fn extension_context(quant: Seq<i32>, pos: int) -> int {
    let (row, col) = (pos / 4, pos % 4);
    let mag = near(quant, row, col + 1, 15) + near(quant, row + 1, col, 15) + near(quant, row + 1, col + 1, 15);
    min((mag + 1) / 2, 6) + if pos == 0 {
        0int
    } else if row < 2 && col < 2 {
        7
    } else {
        14
    }
}

/// Every level is a magnitude.
pub open spec fn magnitudes(quant: Seq<i32>) -> bool {
    quant.len() == 16 && forall|i: int| 0 <= i < 16 ==> #[trigger] quant[i] >= 0
}

/// What the level at a row and column adds to a context.
fn neighbour(quant: &[i32; 16], row: usize, col: usize, cap: i32) -> (r: i32)
    requires
        magnitudes(quant@),
        row <= 5,
        col <= 5,
        0 <= cap,
    ensures
        r == near(quant@, row as int, col as int, cap as int),
        0 <= r <= cap,
{
    if row < 4 && col < 4 {
        let v = quant[4 * row + col];
        assert(quant@[4 * row + col] >= 0);
        if v < cap {
            v
        } else {
            cap
        }
    } else {
        0
    }
}

/// The base-level context at raster position `pos`. For the last coefficient
/// (`is_eob`) the scan index `c` alone decides, and the context is one of the
/// last four below `SIG_COEF_CONTEXTS`.
pub fn coeff_base_ctx(quant: &[i32; 16], pos: usize, c: usize, is_eob: bool) -> (r: usize)
    requires
        magnitudes(quant@),
        pos < 16,
    ensures
        is_eob ==> r == SIG_COEF_CONTEXTS - 4 + last_context(c as int),
        !is_eob ==> r == base_context(quant@, pos as int),
        r < SIG_COEF_CONTEXTS,
{
    if is_eob {
        return if c == 0 {
            SIG_COEF_CONTEXTS - 4
        } else if c <= 2 {
            SIG_COEF_CONTEXTS - 3
        } else if c <= 4 {
            SIG_COEF_CONTEXTS - 2
        } else {
            SIG_COEF_CONTEXTS - 1
        };
    }
    let row = pos / 4;
    let col = pos % 4;
    let mag = neighbour(quant, row, col + 1, 3) + neighbour(quant, row + 1, col, 3) + neighbour(
        quant,
        row + 1,
        col + 1,
        3,
    ) + neighbour(quant, row, col + 2, 3) + neighbour(quant, row + 2, col, 3);
    if pos == 0 {
        return 0;
    }
    let half = (mag + 1) / 2;
    let ctx: usize = if half < 4 {
        half as usize
    } else {
        4
    };
    ctx + COEFF_BASE_CTX_OFFSET_4X4[row][col]
}

/// The context of a magnitude extension at raster position `pos`.
pub fn coeff_br_ctx(quant: &[i32; 16], pos: usize) -> (r: usize)
    requires
        magnitudes(quant@),
        pos < 16,
    ensures
        r == extension_context(quant@, pos as int),
        r < 21,
{
    let row = pos / 4;
    let col = pos % 4;
    let mag = neighbour(quant, row, col + 1, 15) + neighbour(quant, row + 1, col, 15) + neighbour(
        quant,
        row + 1,
        col + 1,
        15,
    );
    let half = (mag + 1) / 2;
    let ctx: usize = if half < 6 {
        half as usize
    } else {
        6
    };
    if pos == 0 {
        ctx
    } else if row < 2 && col < 2 {
        ctx + 7
    } else {
        ctx + 14
    }
}

/// The length of a Golomb code of which `n` zeros are read: the zeros up to the
/// first one, the one counted, but at most 21 bits.
pub open spec fn golomb_length(s: Sym, n: int) -> (int, Sym)
    decreases 21 - n,
{
    let (b, t) = decode(s, even_cdf());
    if b != 0 || n >= 20 {
        (n + 1, t)
    } else {
        golomb_length(t, n + 1)
    }
}

/// A Golomb coded value: a one bit followed by one bit fewer than the length.
pub open spec fn golomb(s: Sym) -> (int, Sym) {
    let (length, t) = golomb_length(s, 0);
    let (tail, u) = literal(t, length - 1);
    (p2(length - 1) + tail, u)
}

/// The length of a Golomb code is between 1 and 21.
pub proof fn lemma_golomb_length(s: Sym, n: int)
    requires
        s.wf(),
        0 <= n <= 20,
    ensures
        n < golomb_length(s, n).0 <= 21,
        golomb_length(s, n).1.wf(),
    decreases 21 - n,
{
    lemma_decode(s, even_cdf());
    let (b, t) = decode(s, even_cdf());
    if !(b != 0 || n >= 20) {
        lemma_golomb_length(t, n + 1);
    }
}

/// Read a Golomb coded value.
pub fn read_golomb(dec: &mut SymbolDecoder<'_>) -> (r: Outcome<i32>)
    requires
        old(dec).wf(),
    ensures
        r is Ok,
        r->Ok_0 == golomb(old(dec).sym()).0,
        1 <= r->Ok_0 < 0x20_0000,
        final(dec).sym() == golomb(old(dec).sym()).1,
        final(dec).wf(),
        final(dec).frozen() == old(dec).frozen(),
{
    let ghost s = dec.sym();
    let mut zeros: u32 = 0;
    let mut done = false;
    while !done
        invariant
            dec.wf(),
            dec.frozen() == old(dec).frozen(),
            !done ==> zeros <= 20 && golomb_length(dec.sym(), zeros as int) == golomb_length(s, 0),
            done ==> (zeros as int, dec.sym()) == golomb_length(s, 0) && 1 <= zeros <= 21,
        decreases 22 - zeros + if done {
            0int
        } else {
            1
        },
    {
        let b = dec.read_bool()?;
        done = b || zeros >= 20;
        zeros = zeros + 1;
    }
    let ghost t = dec.sym();
    let tail = dec.read_literal(zeros - 1)?;
    proof {
        lemma_p2_mono(zeros - 1, 20);
        lemma_p2_values();
        crate::math::lemma_p2_pos(zeros - 1);
    }
    Ok((pow2_usize(zeros - 1) + tail as usize) as i32)
}

/// The end-of-block position, and the state after it: a class, then, within the
/// larger classes, a coded bit and plain bits.
pub open spec fn end_of_block(st: Coded, frozen: bool, pt: int) -> (int, Coded) {
    let (e, a) = next(st, frozen, ROW_EOB_PT + 2 * pt);
    let class = e + 1;
    if class < 2 {
        (class, a)
    } else if class < 3 {
        (2, a)
    } else {
        let (x, b) = next(a, frozen, ROW_EOB_EXTRA + 9 * pt + class - 3);
        let (tail, sym) = literal(b.sym, class - 3);
        (
            p2(class - 2) + 1 + (if x != 0 {
                p2(class - 3)
            } else {
                0
            }) + tail,
            Coded { sym, ..b },
        )
    }
}

/// Read the end-of-block position.
fn read_end(dec: &mut SymbolDecoder<'_>, cdfs: &mut CoeffCdfs, pt: usize) -> (r: Outcome<usize>)
    requires
        old(dec).wf(),
        old(cdfs).wf(),
        pt <= 1,
    ensures
        r is Ok,
        r->Ok_0 == end_of_block(
            (Coded { sym: old(dec).sym(), rows: old(cdfs).table@ }),
            old(dec).frozen(),
            pt as int,
        ).0,
        (Coded { sym: final(dec).sym(), rows: final(cdfs).table@ }) == end_of_block(
            (Coded { sym: old(dec).sym(), rows: old(cdfs).table@ }),
            old(dec).frozen(),
            pt as int,
        ).1,
        1 <= r->Ok_0 <= 16,
        final(dec).wf(),
        final(dec).frozen() == old(dec).frozen(),
        final(cdfs).wf(),
{
    let ghost frozen = dec.frozen();
    let ghost st = Coded { sym: dec.sym(), rows: cdfs.table@ };
    proof {
        lemma_next(st, frozen, ROW_EOB_PT + 2 * pt);
        lemma_p2_values();
    }
    let class = cdfs.table.read(dec, ROW_EOB_PT + 2 * pt)? + 1;
    if class < 3 {
        return Ok(class);
    }
    let ghost a = Coded { sym: dec.sym(), rows: cdfs.table@ };
    assert(a == next(st, frozen, ROW_EOB_PT + 2 * pt).1);
    proof {
        lemma_next(a, frozen, ROW_EOB_EXTRA + 9 * pt + class - 3);
    }
    let extra = cdfs.table.read(dec, ROW_EOB_EXTRA + 9 * pt + class - 3)?;
    let ghost b = Coded { sym: dec.sym(), rows: cdfs.table@ };
    assert(b == next(a, frozen, ROW_EOB_EXTRA + 9 * pt + class - 3).1);
    let tail = dec.read_literal((class - 3) as u32)?;
    let base = pow2_usize((class - 2) as u32) + 1;
    let step = if extra != 0 {
        pow2_usize((class - 3) as u32)
    } else {
        0
    };
    Ok(base + step + tail as usize)
}

/// A level extended by up to `rounds` symbols through row `k`; a symbol below
/// three is the last.
pub open spec fn extended(st: Coded, frozen: bool, k: int, level: int, rounds: int) -> (int, Coded)
    decreases rounds,
{
    if rounds <= 0 {
        (level, st)
    } else {
        let (b, t) = next(st, frozen, k);
        if b < 3 {
            (level + b, t)
        } else {
            extended(t, frozen, k, level + b, rounds - 1)
        }
    }
}

/// The magnitude, before any Golomb tail, of the coefficient at scan index `c`,
/// the last one if `last`.
#[verifier::opaque]
pub open spec fn level(st: Coded, frozen: bool, pt: int, quant: Seq<i32>, c: int, last: bool) -> (int, Coded) {
    let pos = DEFAULT_SCAN_4X4@[c] as int;
    let (b, t) = if last {
        next(st, frozen, ROW_BASE_EOB + 4 * pt + last_context(c))
    } else {
        next(st, frozen, ROW_BASE + 42 * pt + base_context(quant, pos))
    };
    let base = if last {
        b + 1
    } else {
        b
    };
    if base > 2 {
        extended(t, frozen, ROW_BR + 21 * pt + extension_context(quant, pos), base, 4)
    } else {
        (base, t)
    }
}

/// The magnitudes of the coefficients at scan indices below `c`, read backwards.
pub open spec fn levels(st: Coded, frozen: bool, pt: int, quant: Seq<i32>, eob: int, c: int) -> (Seq<i32>, Coded)
    decreases c,
{
    if c <= 0 {
        (quant, st)
    } else {
        let (v, t) = level(st, frozen, pt, quant, c - 1, c == eob);
        levels(t, frozen, pt, quant.update(DEFAULT_SCAN_4X4@[c - 1] as int, v as i32), eob, c - 1)
    }
}

/// Extend a level.
fn read_extension(dec: &mut SymbolDecoder<'_>, cdfs: &mut CoeffCdfs, k: usize, level: i32) -> (r: Outcome<i32>)
    requires
        old(dec).wf(),
        old(cdfs).wf(),
        ROW_BR <= k < ROW_DC_SIGN,
        0 <= level <= 3,
    ensures
        r is Ok,
        r->Ok_0 == extended(
            (Coded { sym: old(dec).sym(), rows: old(cdfs).table@ }),
            old(dec).frozen(),
            k as int,
            level as int,
            4,
        ).0,
        (Coded { sym: final(dec).sym(), rows: final(cdfs).table@ }) == extended(
            (Coded { sym: old(dec).sym(), rows: old(cdfs).table@ }),
            old(dec).frozen(),
            k as int,
            level as int,
            4,
        ).1,
        0 <= r->Ok_0 <= 15,
        final(dec).wf(),
        final(dec).frozen() == old(dec).frozen(),
        final(cdfs).wf(),
{
    let ghost frozen = dec.frozen();
    let ghost st = Coded { sym: dec.sym(), rows: cdfs.table@ };
    let mut total = level;
    let mut rounds: i32 = 4;
    while rounds > 0
        invariant
            0 <= rounds <= 4,
            dec.wf(),
            dec.frozen() == frozen,
            frozen == old(dec).frozen(),
            st == (Coded { sym: old(dec).sym(), rows: old(cdfs).table@ }),
            cdfs.wf(),
            ROW_BR <= k < ROW_DC_SIGN,
            0 <= total <= 3 + 3 * (4 - rounds),
            extended(st, frozen, k as int, level as int, 4) == extended(
                (Coded { sym: dec.sym(), rows: cdfs.table@ }),
                frozen,
                k as int,
                total as int,
                rounds as int,
            ),
        decreases rounds,
    {
        let ghost here = Coded { sym: dec.sym(), rows: cdfs.table@ };
        proof {
            lemma_next(here, frozen, k as int);
        }
        let b = cdfs.table.read(dec, k)? as i32;
        assert(next(here, frozen, k as int).1 == (Coded { sym: dec.sym(), rows: cdfs.table@ }));
        total = total + b;
        rounds = rounds - 1;
        if b < 3 {
            return Ok(total);
        }
    }
    Ok(total)
}

/// Read the magnitude of the coefficient at scan index `c`.
fn read_level(
    dec: &mut SymbolDecoder<'_>,
    cdfs: &mut CoeffCdfs,
    pt: usize,
    quant: &[i32; 16],
    c: usize,
    last: bool,
) -> (r: Outcome<i32>)
    requires
        old(dec).wf(),
        old(cdfs).wf(),
        pt <= 1,
        c < 16,
        magnitudes(quant@),
    ensures
        r is Ok,
        r->Ok_0 == level(
            (Coded { sym: old(dec).sym(), rows: old(cdfs).table@ }),
            old(dec).frozen(),
            pt as int,
            quant@,
            c as int,
            last,
        ).0,
        (Coded { sym: final(dec).sym(), rows: final(cdfs).table@ }) == level(
            (Coded { sym: old(dec).sym(), rows: old(cdfs).table@ }),
            old(dec).frozen(),
            pt as int,
            quant@,
            c as int,
            last,
        ).1,
        0 <= r->Ok_0 <= 15,
        final(dec).wf(),
        final(dec).frozen() == old(dec).frozen(),
        final(cdfs).wf(),
{
    proof {
        reveal(level);
    }
    let ghost frozen = dec.frozen();
    let ghost st = Coded { sym: dec.sym(), rows: cdfs.table@ };
    let pos = DEFAULT_SCAN_4X4[c];
    let ctx = coeff_base_ctx(quant, pos, c, last);
    let k = if last {
        ROW_BASE_EOB + 4 * pt + (ctx + 4 - SIG_COEF_CONTEXTS)
    } else {
        ROW_BASE + 42 * pt + ctx
    };
    proof {
        lemma_next(st, frozen, k as int);
    }
    let b = cdfs.table.read(dec, k)? as i32;
    assert(next(st, frozen, k as int).1 == (Coded { sym: dec.sym(), rows: cdfs.table@ }));
    let base = if last {
        b + 1
    } else {
        b
    };
    if base > 2 {
        let br = coeff_br_ctx(quant, pos);
        read_extension(dec, cdfs, ROW_BR + 21 * pt + br, base)
    } else {
        Ok(base)
    }
}

/// Read the magnitudes of the first `eob` coefficients of the scan.
fn read_levels(dec: &mut SymbolDecoder<'_>, cdfs: &mut CoeffCdfs, pt: usize, eob: usize) -> (r: Outcome<[i32; 16]>)
    requires
        old(dec).wf(),
        old(cdfs).wf(),
        pt <= 1,
        eob <= 16,
    ensures
        r is Ok,
        r->Ok_0@ == levels(
            (Coded { sym: old(dec).sym(), rows: old(cdfs).table@ }),
            old(dec).frozen(),
            pt as int,
            Seq::new(16, |i: int| 0i32),
            eob as int,
            eob as int,
        ).0,
        (Coded { sym: final(dec).sym(), rows: final(cdfs).table@ }) == levels(
            (Coded { sym: old(dec).sym(), rows: old(cdfs).table@ }),
            old(dec).frozen(),
            pt as int,
            Seq::new(16, |i: int| 0i32),
            eob as int,
            eob as int,
        ).1,
        forall|i: int| 0 <= i < 16 ==> 0 <= #[trigger] r->Ok_0@[i] <= 15,
        final(dec).wf(),
        final(dec).frozen() == old(dec).frozen(),
        final(cdfs).wf(),
{
    let ghost frozen = dec.frozen();
    let ghost st = Coded { sym: dec.sym(), rows: cdfs.table@ };
    let mut quant = [0i32; 16];
    let ghost blank = Seq::new(16, |i: int| 0i32);
    assert(quant@ =~= blank);
    let mut c = eob;
    while c > 0
        invariant
            c <= eob <= 16,
            pt <= 1,
            dec.wf(),
            dec.frozen() == frozen,
            frozen == old(dec).frozen(),
            cdfs.wf(),
            forall|i: int| 0 <= i < 16 ==> 0 <= #[trigger] quant@[i] <= 15,
            levels(st, frozen, pt as int, blank, eob as int, eob as int) == levels(
                (Coded { sym: dec.sym(), rows: cdfs.table@ }),
                frozen,
                pt as int,
                quant@,
                eob as int,
                c as int,
            ),
        decreases c,
    {
        c = c - 1;
        let v = read_level(dec, cdfs, pt, &quant, c, c + 1 == eob)?;
        quant[DEFAULT_SCAN_4X4[c]] = v;
    }
    Ok(quant)
}

/// What decoding a block's coefficients gives.
#[verifier::ext_equal]
pub struct Coefficients {
    /// The signed levels, in raster order.
    pub quant: Seq<i32>,
    /// The end-of-block position.
    pub eob: int,
    /// The sum of the magnitudes, at most 63.
    pub cul_level: int,
    /// The first coefficient: 0 none, 1 negative, 2 positive.
    pub dc_category: int,
}

/// The sign and the magnitude of the coefficient at scan index `c`, which has
/// magnitude `level` before any Golomb tail.
pub open spec fn signed(st: Coded, frozen: bool, pt: int, dc_ctx: int, c: int, level: int) -> (bool, int, Coded) {
    let (sign, t) = if level == 0 {
        (false, st)
    } else if c == 0 {
        let (b, u) = next(st, frozen, ROW_DC_SIGN + 3 * pt + dc_ctx);
        (b != 0, u)
    } else {
        coin(st)
    };
    if level > 14 {
        let (x, sym) = golomb(t.sym);
        (sign, x + 14, Coded { sym, ..t })
    } else {
        (sign, level, t)
    }
}

/// The levels with their signs and tails from scan index `c` on, the sum of the
/// magnitudes, the category of the first coefficient, and the state after.
pub open spec fn signs(
    st: Coded,
    frozen: bool,
    pt: int,
    dc_ctx: int,
    quant: Seq<i32>,
    eob: int,
    c: int,
    cul: int,
    dc: int,
) -> (Seq<i32>, int, int, Coded)
    decreases eob - c,
{
    if c >= eob {
        (quant, cul, dc, st)
    } else {
        let pos = DEFAULT_SCAN_4X4@[c] as int;
        let (sign, magnitude, t) = signed(st, frozen, pt, dc_ctx, c, quant[pos] as int);
        let kept = magnitude % 0x10_0000;
        signs(
            t,
            frozen,
            pt,
            dc_ctx,
            quant.update(
                pos,
                (if sign {
                    -kept
                } else {
                    kept
                }) as i32,
            ),
            eob,
            c + 1,
            cul + kept,
            if pos == 0 && magnitude > 0 {
                if sign {
                    1
                } else {
                    2
                }
            } else {
                dc
            },
        )
    }
}

/// The coefficients of a block that is not all zero, and the state after them,
/// from the state after the whole-block flag. `None` where the sign of the first
/// coefficient is coded and `dc_ctx` is no context.
pub open spec fn coded_block(st: Coded, frozen: bool, pt: int, dc_ctx: int) -> Option<(Coefficients, Coded)> {
    let (eob, a) = end_of_block(st, frozen, pt);
    let (quant, b) = levels(a, frozen, pt, Seq::new(16, |i: int| 0i32), eob, eob);
    if quant[0] != 0 && dc_ctx >= 3 {
        None
    } else {
        let (q, cul, dc, end) = signs(b, frozen, pt, dc_ctx, quant, eob, 0, 0, 0);
        Some((Coefficients { quant: q, eob, cul_level: min(cul, 63), dc_category: dc }, end))
    }
}

/// The state after the levels of a block that is not all zero, from the state after
/// the whole-block flag.
pub open spec fn past_levels(st: Coded, frozen: bool, pt: int) -> Coded {
    let (eob, a) = end_of_block(st, frozen, pt);
    levels(a, frozen, pt, Seq::new(16, |i: int| 0i32), eob, eob).1
}

/// The state after a block's coefficients that failed on a context: before the
/// whole-block flag, or before the first sign.
pub open spec fn coefficients_stop(st: Coded, frozen: bool, ptype: int, zero_ctx: int) -> Coded {
    if zero_ctx >= 13 {
        st
    } else {
        past_levels(next(st, frozen, ROW_SKIP + zero_ctx).1, frozen, min(ptype, 1))
    }
}

/// The coefficients of a block, and the state after them. `None` where a context
/// is out of range.
pub open spec fn coefficients(st: Coded, frozen: bool, ptype: int, zero_ctx: int, dc_ctx: int) -> Option<
    (Coefficients, Coded),
> {
    if zero_ctx >= 13 {
        None
    } else {
        let (zero, a) = next(st, frozen, ROW_SKIP + zero_ctx);
        if zero != 0 {
            Some(
                (
                    Coefficients { quant: Seq::new(16, |i: int| 0i32), eob: 0, cul_level: 0, dc_category: 0 },
                    a,
                ),
            )
        } else {
            coded_block(a, frozen, min(ptype, 1), dc_ctx)
        }
    }
}

/// The coefficients of one 4 by 4 transform block.
pub struct CoeffBlock {
    /// The signed levels, in raster order.
    pub quant: [i32; 16],
    /// The end-of-block position: the count of leading scan coefficients.
    pub eob: usize,
    /// The sum of the magnitudes, at most 63: the context this block leaves.
    pub cul_level: u8,
    /// The first coefficient: 0 none, 1 negative, 2 positive.
    pub dc_category: u8,
}

impl View for CoeffBlock {
    type V = Coefficients;

    open spec fn view(&self) -> Coefficients {
        Coefficients {
            quant: self.quant@,
            eob: self.eob as int,
            cul_level: self.cul_level as int,
            dc_category: self.dc_category as int,
        }
    }
}

/// Read the sign and the magnitude of one coefficient.
fn read_signed(
    dec: &mut SymbolDecoder<'_>,
    cdfs: &mut CoeffCdfs,
    pt: usize,
    dc_ctx: usize,
    c: usize,
    level: i32,
) -> (r: Outcome<(bool, i32)>)
    requires
        old(dec).wf(),
        old(cdfs).wf(),
        pt <= 1,
        0 <= level <= 15,
        c == 0 && level != 0 ==> dc_ctx < 3,
    ensures
        r is Ok,
        ({
            let s = signed(
                (Coded { sym: old(dec).sym(), rows: old(cdfs).table@ }),
                old(dec).frozen(),
                pt as int,
                dc_ctx as int,
                c as int,
                level as int,
            );
            &&& r->Ok_0.0 == s.0
            &&& r->Ok_0.1 == s.1
            &&& (Coded { sym: final(dec).sym(), rows: final(cdfs).table@ }) == s.2
        }),
        0 <= r->Ok_0.1 <= 0x20_0010,
        final(dec).wf(),
        final(dec).frozen() == old(dec).frozen(),
        final(cdfs).wf(),
{
    let ghost st = Coded { sym: dec.sym(), rows: cdfs.table@ };
    let ghost frozen = dec.frozen();
    let sign = if level == 0 {
        false
    } else if c == 0 {
        let k = ROW_DC_SIGN + 3 * pt + dc_ctx;
        proof {
            lemma_next(st, frozen, k as int);
        }
        cdfs.table.read(dec, k)? != 0
    } else {
        dec.read_bool()?
    };
    if level > 14 {
        let x = read_golomb(dec)?;
        Ok((sign, x + 14))
    } else {
        Ok((sign, level))
    }
}

/// The words of a block whose distributions do not exist.
pub open spec fn coeff_fault() -> Seq<char> {
    "an AV1 coefficient CDF index ran out of range"@
}

/// Read the end-of-block position, the levels and the signs of a block that is
/// not all zero.
fn read_block(dec: &mut SymbolDecoder<'_>, cdfs: &mut CoeffCdfs, pt: usize, dc_ctx: usize) -> (r: Outcome<CoeffBlock>)
    requires
        old(dec).wf(),
        old(cdfs).wf(),
        pt <= 1,
    ensures
        ({
            let m = coded_block(
                (Coded { sym: old(dec).sym(), rows: old(cdfs).table@ }),
                old(dec).frozen(),
                pt as int,
                dc_ctx as int,
            );
            &&& r is Ok <==> m is Some
            &&& r is Ok ==> r->Ok_0@ == (m->0).0 && (Coded { sym: final(dec).sym(), rows: final(cdfs).table@ })
                == (m->0).1
        }),
        r is Err ==> fails_saying(r, ErrorCode::Malformed, coeff_fault()),
        r is Err ==> (Coded { sym: final(dec).sym(), rows: final(cdfs).table@ }) == past_levels(
            (Coded { sym: old(dec).sym(), rows: old(cdfs).table@ }),
            old(dec).frozen(),
            pt as int,
        ),
        final(dec).wf(),
        final(dec).frozen() == old(dec).frozen(),
        final(cdfs).wf(),
{
    let ghost frozen = dec.frozen();
    let ghost st = Coded { sym: dec.sym(), rows: cdfs.table@ };
    let eob = read_end(dec, cdfs, pt)?;
    let ghost a = Coded { sym: dec.sym(), rows: cdfs.table@ };
    let mut quant = read_levels(dec, cdfs, pt, eob)?;
    let ghost b = Coded { sym: dec.sym(), rows: cdfs.table@ };
    let ghost raw = quant@;
    assert((eob as int, a) == end_of_block(st, frozen, pt as int));
    assert((raw, b) == levels(a, frozen, pt as int, Seq::new(16, |i: int| 0i32), eob as int, eob as int));
    if quant[0] != 0 && dc_ctx >= 3 {
        return Err(PixelsError::malformed("an AV1 coefficient CDF index ran out of range"));
    }
    let mut cul: i32 = 0;
    let mut dc: u8 = 0;
    let mut c: usize = 0;
    while c < eob
        invariant
            c <= eob <= 16,
            pt <= 1,
            dec.wf(),
            dec.frozen() == frozen,
            frozen == old(dec).frozen(),
            cdfs.wf(),
            raw[0] != 0 ==> dc_ctx < 3,
            c == 0 ==> quant@ == raw,
            forall|i: int| 0 <= i < 16 ==> 0 <= #[trigger] raw[i] <= 15,
            forall|k: int| c <= k < 16 ==> quant@[(#[trigger] DEFAULT_SCAN_4X4@[k]) as int] == raw[DEFAULT_SCAN_4X4@[k] as int],
            0 <= cul <= 0x10_0000 * c,
            dc <= 2,
            signs(b, frozen, pt as int, dc_ctx as int, raw, eob as int, 0, 0, 0) == signs(
                (Coded { sym: dec.sym(), rows: cdfs.table@ }),
                frozen,
                pt as int,
                dc_ctx as int,
                quant@,
                eob as int,
                c as int,
                cul as int,
                dc as int,
            ),
        decreases eob - c,
    {
        let pos = DEFAULT_SCAN_4X4[c];
        assert(quant@[DEFAULT_SCAN_4X4@[c as int] as int] == raw[pos as int]);
        let (sign, magnitude) = read_signed(dec, cdfs, pt, dc_ctx, c, quant[pos])?;
        if pos == 0 && magnitude > 0 {
            dc = if sign {
                1
            } else {
                2
            };
        }
        let kept = magnitude % 0x10_0000;
        cul = cul + kept;
        quant[pos] = if sign {
            -kept
        } else {
            kept
        };
        c = c + 1;
    }
    Ok(
        CoeffBlock {
            quant,
            eob,
            cul_level: if cul < 63 {
                cul as u8
            } else {
                63
            },
            dc_category: dc,
        },
    )
}

/// Decode the coefficients of one 4 by 4 lossless transform block.
///
/// `ptype` is 0 for luma and 1 for chroma; `all_zero_ctx` and `dc_sign_ctx` are
/// the contexts that the neighbouring blocks leave. A context out of range is
/// malformed.
pub fn decode_coeffs_4x4(
    dec: &mut SymbolDecoder<'_>,
    cdfs: &mut CoeffCdfs,
    ptype: usize,
    all_zero_ctx: usize,
    dc_sign_ctx: usize,
) -> (r: Outcome<CoeffBlock>)
    requires
        old(dec).wf(),
        old(cdfs).wf(),
    ensures
        ({
            let m = coefficients(
                (Coded { sym: old(dec).sym(), rows: old(cdfs).table@ }),
                old(dec).frozen(),
                ptype as int,
                all_zero_ctx as int,
                dc_sign_ctx as int,
            );
            &&& r is Ok <==> m is Some
            &&& r is Ok ==> r->Ok_0@ == (m->0).0 && (Coded { sym: final(dec).sym(), rows: final(cdfs).table@ })
                == (m->0).1
        }),
        r is Err ==> fails_saying(r, ErrorCode::Malformed, coeff_fault()),
        r is Err ==> (Coded { sym: final(dec).sym(), rows: final(cdfs).table@ }) == coefficients_stop(
            (Coded { sym: old(dec).sym(), rows: old(cdfs).table@ }),
            old(dec).frozen(),
            ptype as int,
            all_zero_ctx as int,
        ),
        final(dec).wf(),
        final(dec).frozen() == old(dec).frozen(),
        final(cdfs).wf(),
{
    if all_zero_ctx >= 13 {
        return Err(PixelsError::malformed("an AV1 coefficient CDF index ran out of range"));
    }
    let ghost st = Coded { sym: dec.sym(), rows: cdfs.table@ };
    proof {
        lemma_next(st, dec.frozen(), (ROW_SKIP + all_zero_ctx) as int);
    }
    let all_zero = cdfs.table.read(dec, ROW_SKIP + all_zero_ctx)?;
    if all_zero != 0 {
        let quant = [0i32; 16];
        assert(quant@ =~= Seq::new(16, |i: int| 0i32));
        return Ok(CoeffBlock { quant, eob: 0, cul_level: 0, dc_category: 0 });
    }
    let pt: usize = if ptype < 1 {
        ptype
    } else {
        1
    };
    read_block(dec, cdfs, pt, dc_sign_ctx)
}

} // verus!
