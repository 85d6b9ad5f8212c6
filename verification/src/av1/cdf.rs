//! Tables of adapting distributions.
//!
//! The symbols of a tile are coded against distributions chosen by context. A
//! `CdfTable` holds the distributions of one family as numbered rows; reading a
//! symbol through a row adapts that row and no other.
use super::symbol::{adapted, cdf_ok, decode, lemma_adapted_ok, lemma_decode, Sym, SymbolDecoder};
use crate::error::{ErrorCode, Outcome, PixelsError, fails_saying};
use vstd::prelude::*;

verus! {

/// A family of distributions, by row.
pub struct CdfTable {
    rows: Vec<Vec<u16>>,
}

/// Every row is a distribution.
pub open spec fn rows_ok(rows: Seq<Seq<u16>>) -> bool {
    forall|i: int| 0 <= i < rows.len() ==> cdf_ok(#[trigger] rows[i])
}

/// Whether the frequencies of a distribution never fall.
pub open spec fn rises(row: Seq<u16>) -> bool {
    forall|j: int, k: int| 0 <= j < k < row.len() - 1 ==> #[trigger] row[j] <= #[trigger] row[k]
}

/// The rows from `base` on, `count` of them, are distributions over `symbols` symbols.
pub open spec fn rows_hold(rows: Seq<Seq<u16>>, base: int, count: int, symbols: int) -> bool {
    &&& base + count <= rows.len()
    &&& forall|i: int| base <= i < base + count ==> (#[trigger] rows[i]).len() == symbols + 1
}

/// Reading a symbol through row `k`: the symbol, and the decoder and the rows after.
#[verifier::opaque]
pub open spec fn turn(sym: Sym, rows: Seq<Seq<u16>>, frozen: bool, k: int) -> (int, Sym, Seq<Seq<u16>>) {
    let (symbol, next) = decode(sym, rows[k]);
    (
        symbol,
        next,
        if frozen {
            rows
        } else {
            rows.update(k, adapted(rows[k], symbol))
        },
    )
}

/// The rows of `b` are distributions over the same symbols as those of `a`.
pub open spec fn same_shape(a: Seq<Seq<u16>>, b: Seq<Seq<u16>>) -> bool {
    &&& a.len() == b.len()
    &&& forall|i: int| 0 <= i < a.len() ==> (#[trigger] b[i]).len() == a[i].len()
}

/// Reading a symbol keeps every row a distribution over the same symbols, and
/// gives a symbol of its row.
pub proof fn lemma_turn(sym: Sym, rows: Seq<Seq<u16>>, frozen: bool, k: int)
    requires
        sym.wf(),
        rows_ok(rows),
        0 <= k < rows.len(),
    ensures
        turn(sym, rows, frozen, k).1.wf(),
        rows_ok(turn(sym, rows, frozen, k).2),
        same_shape(rows, turn(sym, rows, frozen, k).2),
        0 <= turn(sym, rows, frozen, k).0 < rows[k].len() - 1,
{
    reveal(turn);
    assert(cdf_ok(rows[k]));
    lemma_decode(sym, rows[k]);
    lemma_adapted_ok(rows[k], decode(sym, rows[k]).0);
}

/// The most symbols that a distribution can have besides the last.
const MAX_STEPS: usize = 1073725503;

/// Whether a row is a distribution.
fn is_distribution(row: &Vec<u16>) -> (r: bool)
    ensures
        r == cdf_ok(row@),
{
    let n = row.len();
    if n < 2 || n - 2 > MAX_STEPS || row[n - 2] != 32768 {
        return false;
    }
    let mut i: usize = 0;
    while i < n - 1
        invariant
            i <= n - 1,
            n == row@.len(),
            n >= 2,
            forall|k: int| 0 <= k < i ==> #[trigger] row@[k] <= 32768,
        decreases n - i,
    {
        if row[i] > 32768 {
            return false;
        }
        i = i + 1;
    }
    true
}

impl View for CdfTable {
    type V = Seq<Seq<u16>>;

    closed spec fn view(&self) -> Seq<Seq<u16>> {
        Seq::new(self.rows@.len(), |i: int| self.rows@[i]@)
    }
}

impl CdfTable {
    /// A table with the given rows.
    pub fn from_rows(rows: Vec<Vec<u16>>) -> (r: CdfTable)
        ensures
            r@ == Seq::new(rows@.len(), |i: int| rows@[i]@),
    {
        CdfTable { rows }
    }

    /// The number of rows.
    pub fn len(&self) -> (r: usize)
        ensures
            r == self@.len(),
    {
        self.rows.len()
    }

    /// Entry `at` of row `k`, zero past the end of the row.
    pub fn entry(&self, k: usize, at: usize) -> (r: u16)
        requires
            k < self@.len(),
        ensures
            r == if at < self@[k as int].len() {
                self@[k as int][at as int]
            } else {
                0
            },
    {
        if at < self.rows[k].len() {
            self.rows[k][at]
        } else {
            0
        }
    }

    /// Whether every row is a distribution.
    pub fn are_distributions(&self) -> (r: bool)
        ensures
            r == rows_ok(self@),
    {
        let mut i: usize = 0;
        while i < self.rows.len()
            invariant
                i <= self.rows@.len(),
                forall|k: int| 0 <= k < i ==> cdf_ok(#[trigger] self@[k]),
            decreases self.rows@.len() - i,
        {
            assert(self@[i as int] == self.rows@[i as int]@);
            if !is_distribution(&self.rows[i]) {
                return false;
            }
            i = i + 1;
        }
        true
    }

    /// Whether the rows from `base` on, `count` of them, are over `symbols` symbols.
    pub fn hold(&self, base: usize, count: usize, symbols: usize) -> (r: bool)
        requires
            base + count <= usize::MAX,
            symbols < usize::MAX,
        ensures
            r == rows_hold(self@, base as int, count as int, symbols as int),
    {
        if base + count > self.rows.len() {
            return false;
        }
        let mut i: usize = base;
        while i < base + count
            invariant
                base <= i <= base + count <= self.rows@.len(),
                base + count <= usize::MAX,
                symbols < usize::MAX,
                forall|k: int| base <= k < i ==> (#[trigger] self@[k]).len() == symbols + 1,
            decreases base + count - i,
        {
            assert(self@[i as int] == self.rows@[i as int]@);
            if self.rows[i].len() != symbols + 1 {
                return false;
            }
            i = i + 1;
        }
        true
    }

    /// Whether the frequencies of row `k` never fall.
    pub fn row_rises(&self, k: usize) -> (r: bool)
        requires
            k < self@.len(),
        ensures
            r == rises(self@[k as int]),
    {
        let row = &self.rows[k];
        assert(row@ == self@[k as int]);
        let mut i: usize = 1;
        while i < row.len() && i < row.len() - 1
            invariant
                1 <= i,
                row@ == self@[k as int],
                forall|a: int, b: int| 0 <= a < b < i && b < row@.len() - 1 ==> #[trigger] row@[a] <= #[trigger] row@[b],
            decreases row@.len() - i,
        {
            if row[i - 1] > row[i] {
                return false;
            }
            i = i + 1;
        }
        true
    }

    /// A copy of the table.
    pub fn duplicate(&self) -> (r: CdfTable)
        ensures
            r@ == self@,
    {
        let mut rows: Vec<Vec<u16>> = Vec::new();
        let mut i: usize = 0;
        while i < self.rows.len()
            invariant
                i <= self.rows@.len(),
                rows@.len() == i,
                forall|k: int| 0 <= k < i ==> (#[trigger] rows@[k])@ == self.rows@[k]@,
            decreases self.rows@.len() - i,
        {
            let mut row: Vec<u16> = Vec::new();
            let mut j: usize = 0;
            while j < self.rows[i].len()
                invariant
                    i < self.rows@.len(),
                    j <= self.rows@[i as int]@.len(),
                    row@ == self.rows@[i as int]@.take(j as int),
                decreases self.rows@[i as int]@.len() - j,
            {
                row.push(self.rows[i][j]);
                j = j + 1;
            }
            assert(row@ == self.rows@[i as int]@);
            rows.push(row);
            i = i + 1;
        }
        let r = CdfTable { rows };
        assert(r@ =~= self@);
        r
    }

    /// Read a symbol through row `k`. A row the table does not have is malformed.
    pub fn read(&mut self, dec: &mut SymbolDecoder<'_>, k: usize) -> (r: Outcome<usize>)
        requires
            old(dec).wf(),
            rows_ok(old(self)@),
        ensures
            r is Ok <==> k < old(self)@.len(),
            r is Err ==> fails_saying(r, ErrorCode::Malformed, "an AV1 CDF index ran out of range"@) && final(dec).sym() == old(dec).sym() && final(self)@
                == old(self)@,
            r is Ok ==> ({
                let t = turn(old(dec).sym(), old(self)@, old(dec).frozen(), k as int);
                r->Ok_0 == t.0 && final(dec).sym() == t.1 && final(self)@ == t.2
            }),
            r is Ok ==> r->Ok_0 < old(self)@[k as int].len() - 1,
            final(dec).wf(),
            final(dec).frozen() == old(dec).frozen(),
            rows_ok(final(self)@),
            same_shape(old(self)@, final(self)@),
    {
        if k >= self.rows.len() {
            return Err(PixelsError::malformed("an AV1 CDF index ran out of range"));
        }
        let ghost before = self@;
        assert(cdf_ok(before[k as int]));
        let row = &mut self.rows[k];
        let r = dec.read_symbol(row.as_mut_slice());
        proof {
            reveal(turn);
            let t = turn(old(dec).sym(), before, old(dec).frozen(), k as int);
            lemma_turn(old(dec).sym(), before, old(dec).frozen(), k as int);
            assert(self@ =~= t.2);
        }
        r
    }
}

} // verus!
