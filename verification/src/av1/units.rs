//! What a tile remembers of the blocks it has decoded, by units of four samples.
use super::plane::{under, Plane, Samples};
use vstd::prelude::*;

verus! {

/// What is remembered of the block that a unit belongs to.
#[derive(Debug, Clone, Copy)]
pub struct Unit {
    /// The luma mode.
    pub y_mode: u8,
    /// The chroma mode.
    pub uv_mode: u8,
    /// Whether the block has no residual.
    pub skip: bool,
    /// The logarithm of the block's width in units.
    pub wide: u8,
    /// The logarithm of the block's height in units.
    pub high: u8,
    /// The index of the luma transform size.
    pub tx_size: u8,
    /// The size of the luma palette.
    pub size_y: u8,
    /// The size of the chroma palette.
    pub size_uv: u8,
    /// The luma palette.
    pub colours_y: [u16; 8],
    /// The first chroma palette.
    pub colours_uv: [u16; 8],
}

/// Whether a place of a grid is in a rectangle.
pub open spec fn covers(cols: int, k: int, r: int, c: int, wide: int, high: int) -> bool {
    r <= k / cols < r + high && c <= k % cols < c + wide
}

/// Whether a place of a grid is before another, row by row.
pub open spec fn before(cols: int, k: int, y: int, x: int) -> bool {
    k / cols < y || (k / cols == y && k % cols < x)
}

/// The index of a place of a grid.
pub proof fn lemma_grid(cols: int, rows: int, y: int, x: int)
    requires
        0 <= x < cols,
        0 <= y < rows,
    ensures
        0 <= y * cols + x < cols * rows,
        (y * cols + x) / cols == y,
        (y * cols + x) % cols == x,
        0 <= y * cols,
{
    let i = y * cols + x;
    assert(0 <= i < cols * rows && i / cols == y && i % cols == x && 0 <= y * cols) by (nonlinear_arith)
        requires
            i == y * cols + x,
            0 <= x < cols,
            0 <= y < rows,
    ;
}

/// The place of an index of a grid.
pub proof fn lemma_ungrid(cols: int, rows: int, k: int)
    requires
        cols > 0,
        0 <= k < cols * rows,
    ensures
        0 <= k / cols < rows,
        0 <= k % cols < cols,
        (k / cols) * cols + k % cols == k,
{
    assert(0 <= k / cols < rows && 0 <= k % cols < cols && (k / cols) * cols + k % cols == k) by (nonlinear_arith)
        requires
            cols > 0,
            0 <= k < cols * rows,
    ;
}

/// One place more.
proof fn lemma_before_step(cols: int, rows: int, y: int, x: int, k: int)
    requires
        0 <= x < cols,
        0 <= y < rows,
        0 <= k < cols * rows,
    ensures
        before(cols, k, y, x + 1) <==> before(cols, k, y, x) || k == y * cols + x,
        k == y * cols + x ==> k / cols == y && k % cols == x,
{
    lemma_grid(cols, rows, y, x);
    lemma_ungrid(cols, rows, k);
}

/// A unit with what a block leaves: its transform size, or all else.
pub open spec fn stamped(old: Unit, new: Unit, tx_only: bool) -> Unit {
    if tx_only {
        Unit { tx_size: new.tx_size, ..old }
    } else {
        Unit { tx_size: old.tx_size, ..new }
    }
}

/// Units with what a block leaves on those it covers.
pub open spec fn recorded(
    units: Seq<Unit>,
    cols: int,
    r: int,
    c: int,
    wide: int,
    high: int,
    new: Unit,
    tx_only: bool,
) -> Seq<Unit> {
    Seq::new(
        units.len(),
        |k: int|
            if covers(cols, k, r, c, wide, high) {
                stamped(units[k], new, tx_only)
            } else {
                units[k]
            },
    )
}

/// Record what a block leaves on the units it covers. A block that hangs over the
/// edges is clipped.
pub fn record(
    units: &mut Vec<Unit>,
    cols: usize,
    rows: usize,
    r: usize,
    c: usize,
    wide: usize,
    high: usize,
    new: &Unit,
    tx_only: bool,
)
    requires
        old(units)@.len() == cols * rows,
        cols > 0,
        r + high <= usize::MAX,
        c + wide <= usize::MAX,
        c < cols,
    ensures
        final(units)@ == recorded(
            old(units)@,
            cols as int,
            r as int,
            c as int,
            wide as int,
            high as int,
            *new,
            tx_only,
        ),
{
    let ghost all = units@;
    assert(units@.len() == units.len());
    let ghost (w, h) = (cols as int, rows as int);
    let bottom = if r + high < rows {
        r + high
    } else {
        rows
    };
    let right = if c + wide < cols {
        c + wide
    } else {
        cols
    };
    let mut y = r;
    while y < bottom
        invariant
            r <= y,
            w == cols,
            h == rows,
            c < cols,
            y <= bottom || y == r,
            bottom <= rows,
            bottom <= r + high,
            right == (if c + wide < cols {
                c + wide
            } else {
                cols as int
            }),
            all.len() == w * h,
            units@.len() == all.len(),
            units@.len() <= usize::MAX,
            forall|k: int|
                0 <= k < all.len() ==> #[trigger] units@[k] == if covers(
                    w,
                    k,
                    r as int,
                    c as int,
                    wide as int,
                    high as int,
                ) && k / w < y {
                    stamped(all[k], *new, tx_only)
                } else {
                    all[k]
                },
        decreases bottom - y,
    {
        let mut x = c;
        while x < right
            invariant
                c <= x <= right,
                right <= cols,
                right <= c + wide,
                r <= y < bottom,
                bottom <= rows,
                bottom <= r + high,
                w == cols,
                h == rows,
                all.len() == w * h,
                units@.len() == all.len(),
                units@.len() <= usize::MAX,
                forall|k: int|
                    0 <= k < all.len() ==> #[trigger] units@[k] == if covers(
                        w,
                        k,
                        r as int,
                        c as int,
                        wide as int,
                        high as int,
                    ) && before(w, k, y as int, x as int) {
                        stamped(all[k], *new, tx_only)
                    } else {
                        all[k]
                    },
            decreases right - x,
        {
            proof {
                lemma_grid(w, h, y as int, x as int);
            }
            let at = y * cols + x;
            let was = units[at];
            assert(was == all[at as int]);
            let now = if tx_only {
                Unit { tx_size: new.tx_size, ..was }
            } else {
                Unit { tx_size: was.tx_size, ..*new }
            };
            let ghost then = units@;
            units[at] = now;
            proof {
                assert forall|k: int| 0 <= k < all.len() implies #[trigger] units@[k] == (if covers(
                    w,
                    k,
                    r as int,
                    c as int,
                    wide as int,
                    high as int,
                ) && before(w, k, y as int, x + 1) {
                    stamped(all[k], *new, tx_only)
                } else {
                    all[k]
                }) by {
                    lemma_before_step(w, h, y as int, x as int, k);
                    assert(k != at ==> units@[k] == then[k]);
                }
            }
            x = x + 1;
        }
        proof {
            assert forall|k: int| 0 <= k < all.len() implies #[trigger] units@[k] == (if covers(
                w,
                k,
                r as int,
                c as int,
                wide as int,
                high as int,
            ) && k / w < y + 1 {
                stamped(all[k], *new, tx_only)
            } else {
                all[k]
            }) by {
                lemma_ungrid(w, h, k);
            }
        }
        y = y + 1;
    }
    proof {
        let want = recorded(all, w, r as int, c as int, wide as int, high as int, *new, tx_only);
        assert forall|k: int| 0 <= k < all.len() implies #[trigger] units@[k] == want[k] by {
            lemma_ungrid(w, h, k);
        }
        assert(units@ =~= want);
    }
}

/// A grid with one value on the places of a rectangle.
pub open spec fn marked(grid: Seq<u8>, cols: int, r: int, c: int, wide: int, high: int, value: u8) -> Seq<u8> {
    Seq::new(
        grid.len(),
        |k: int|
            if covers(cols, k, r, c, wide, high) {
                value
            } else {
                grid[k]
            },
    )
}

/// Put one value on the places of a rectangle. One that hangs over the edges is
/// clipped.
pub fn mark(grid: &mut Vec<u8>, cols: usize, rows: usize, r: usize, c: usize, wide: usize, high: usize, value: u8)
    requires
        old(grid)@.len() == cols * rows,
        cols > 0,
        r + high <= usize::MAX,
        c + wide <= usize::MAX,
        c < cols,
    ensures
        final(grid)@ == marked(old(grid)@, cols as int, r as int, c as int, wide as int, high as int, value),
{
    let ghost all = grid@;
    assert(grid@.len() == grid.len());
    let ghost (w, h) = (cols as int, rows as int);
    let bottom = if r + high < rows {
        r + high
    } else {
        rows
    };
    let right = if c + wide < cols {
        c + wide
    } else {
        cols
    };
    let mut y = r;
    while y < bottom
        invariant
            r <= y,
            w == cols,
            h == rows,
            c < cols,
            y <= bottom || y == r,
            bottom <= rows,
            bottom <= r + high,
            right == (if c + wide < cols {
                c + wide
            } else {
                cols as int
            }),
            all.len() == w * h,
            grid@.len() == all.len(),
            grid@.len() <= usize::MAX,
            forall|k: int|
                0 <= k < all.len() ==> #[trigger] grid@[k] == if covers(
                    w,
                    k,
                    r as int,
                    c as int,
                    wide as int,
                    high as int,
                ) && k / w < y {
                    value
                } else {
                    all[k]
                },
        decreases bottom - y,
    {
        let mut x = c;
        while x < right
            invariant
                c <= x <= right,
                right <= cols,
                right <= c + wide,
                r <= y < bottom,
                bottom <= rows,
                bottom <= r + high,
                w == cols,
                h == rows,
                all.len() == w * h,
                grid@.len() == all.len(),
                grid@.len() <= usize::MAX,
                forall|k: int|
                    0 <= k < all.len() ==> #[trigger] grid@[k] == if covers(
                        w,
                        k,
                        r as int,
                        c as int,
                        wide as int,
                        high as int,
                    ) && before(w, k, y as int, x as int) {
                        value
                    } else {
                        all[k]
                    },
            decreases right - x,
        {
            proof {
                lemma_grid(w, h, y as int, x as int);
            }
            let at = y * cols + x;
            let ghost then = grid@;
            grid[at] = value;
            proof {
                assert forall|k: int| 0 <= k < all.len() implies #[trigger] grid@[k] == (if covers(
                    w,
                    k,
                    r as int,
                    c as int,
                    wide as int,
                    high as int,
                ) && before(w, k, y as int, x + 1) {
                    value
                } else {
                    all[k]
                }) by {
                    lemma_before_step(w, h, y as int, x as int, k);
                    assert(k != at ==> grid@[k] == then[k]);
                }
            }
            x = x + 1;
        }
        proof {
            assert forall|k: int| 0 <= k < all.len() implies #[trigger] grid@[k] == (if covers(
                w,
                k,
                r as int,
                c as int,
                wide as int,
                high as int,
            ) && k / w < y + 1 {
                value
            } else {
                all[k]
            }) by {
                lemma_ungrid(w, h, k);
            }
        }
        y = y + 1;
    }
    proof {
        let want = marked(all, w, r as int, c as int, wide as int, high as int, value);
        assert forall|k: int| 0 <= k < all.len() implies #[trigger] grid@[k] == want[k] by {
            lemma_ungrid(w, h, k);
        }
        assert(grid@ =~= want);
    }
}

/// A row with one value on a span.
pub open spec fn spanned(row: Seq<u8>, at: int, len: int, value: u8) -> Seq<u8> {
    Seq::new(
        row.len(),
        |i: int|
            if at <= i < at + len {
                value
            } else {
                row[i]
            },
    )
}

/// Put one value on a span, as far as the row goes.
pub fn span(row: &mut Vec<u8>, at: usize, len: usize, value: u8)
    requires
        at + len <= usize::MAX,
    ensures
        final(row)@ == spanned(old(row)@, at as int, len as int, value),
{
    let ghost all = row@;
    let mut i = at;
    while i < at + len && i < row.len()
        invariant
            at <= i <= at + len,
            at + len <= usize::MAX,
            row@.len() == all.len(),
            forall|k: int|
                0 <= k < all.len() ==> #[trigger] row@[k] == if at <= k < i {
                    value
                } else {
                    all[k]
                },
        decreases at + len - i,
    {
        row[i] = value;
        i = i + 1;
    }
    assert(row@ =~= spanned(all, at as int, len as int, value));
}

/// A plane with a block of samples put in place; samples outside are dropped.
pub open spec fn painted(p: Samples, x: int, y: int, w: int, h: int, block: Seq<u16>) -> Samples {
    Samples {
        data: Seq::new(
            p.data.len(),
            |k: int|
                if covers(p.width, k, y, x, w, h) {
                    block[(k / p.width - y) * w + (k % p.width - x)]
                } else {
                    p.data[k]
                },
        ),
        ..p
    }
}

/// Painting samples below a limit onto others below it leaves all below it.
pub proof fn lemma_painted_under(p: Samples, x: int, y: int, w: int, h: int, block: Seq<u16>, limit: int)
    requires
        p.wf(),
        under(p.data, limit),
        under(block, limit),
        block.len() == w * h,
    ensures
        under(painted(p, x, y, w, h, block).data, limit),
{
    let q = painted(p, x, y, w, h, block);
    assert forall|k: int| 0 <= k < q.data.len() implies #[trigger] q.data[k] < limit by {
        if covers(p.width, k, y, x, w, h) {
            lemma_grid(w, h, k / p.width - y, k % p.width - x);
            assert(w * h == h * w) by (nonlinear_arith);
            assert(block[(k / p.width - y) * w + (k % p.width - x)] < limit);
        } else {
            assert(p.data[k] < limit);
        }
    }
}

/// Put a block of samples in place. Samples outside the plane are dropped.
pub fn paint(plane: &mut Plane, x: usize, y: usize, w: usize, h: usize, block: &Vec<u16>)
    requires
        old(plane)@.wf(),
        old(plane)@.width > 0,
        block@.len() == w * h,
        x + w <= usize::MAX,
        y + h <= usize::MAX,
    ensures
        final(plane)@ == painted(old(plane)@, x as int, y as int, w as int, h as int, block@),
        final(plane)@.wf(),
{
    let ghost all = plane@;
    assert(block@.len() == block.len());
    let ghost (pw, ph) = (all.width, all.height);
    let ghost want = painted(all, x as int, y as int, w as int, h as int, block@);
    let mut i: usize = 0;
    while i < h
        invariant
            i <= h,
            all.wf(),
            pw == all.width,
            ph == all.height,
            pw > 0,
            block@.len() == w * h,
            block@.len() <= usize::MAX,
            x + w <= usize::MAX,
            y + h <= usize::MAX,
            want == painted(all, x as int, y as int, w as int, h as int, block@),
            plane@.wf(),
            plane@.width == pw,
            plane@.height == ph,
            forall|k: int|
                0 <= k < all.data.len() ==> #[trigger] plane@.data[k] == if k / pw < y + i {
                    want.data[k]
                } else {
                    all.data[k]
                },
        decreases h - i,
    {
        let mut j: usize = 0;
        proof {
            assert forall|k: int| 0 <= k < all.data.len() implies #[trigger] plane@.data[k] == (if before(
                pw,
                k,
                y + i,
                x as int,
            ) {
                want.data[k]
            } else {
                all.data[k]
            }) by {}
        }
        while j < w
            invariant
                j <= w,
                i < h,
                all.wf(),
                pw == all.width,
                ph == all.height,
                pw > 0,
                block@.len() == w * h,
                block@.len() <= usize::MAX,
                x + w <= usize::MAX,
                y + h <= usize::MAX,
                want == painted(all, x as int, y as int, w as int, h as int, block@),
                plane@.wf(),
                plane@.width == pw,
                plane@.height == ph,
                forall|k: int|
                    0 <= k < all.data.len() ==> #[trigger] plane@.data[k] == if before(pw, k, y + i, x + j) {
                        want.data[k]
                    } else {
                        all.data[k]
                    },
            decreases w - j,
        {
            proof {
                lemma_grid(w as int, h as int, i as int, j as int);
            }
            let value = block[i * w + j];
            let ghost then = plane@;
            plane.set(x + j, y + i, value);
            proof {
                let (u, v) = (x + j, y + i);
                if then.has(u, v) {
                    lemma_grid(pw, ph, v, u);
                }
                assert forall|k: int| 0 <= k < all.data.len() implies #[trigger] plane@.data[k] == (if before(
                    pw,
                    k,
                    y + i,
                    x + j + 1,
                ) {
                    want.data[k]
                } else {
                    all.data[k]
                }) by {
                    lemma_ungrid(pw, ph, k);
                    if then.has(u, v) {
                        lemma_before_step(pw, ph, v, u, k);
                        if k != v * pw + u {
                            assert(plane@.data[k] == then.data[k]);
                        }
                    } else {
                        assert(plane@.data[k] == then.data[k]);
                    }
                }
            }
            j = j + 1;
        }
        proof {
            assert forall|k: int| 0 <= k < all.data.len() implies #[trigger] plane@.data[k] == (if k / pw < y + (i + 1) {
                want.data[k]
            } else {
                all.data[k]
            }) by {
                lemma_ungrid(pw, ph, k);
            }
        }
        i = i + 1;
    }
    proof {
        assert forall|k: int| 0 <= k < all.data.len() implies #[trigger] plane@.data[k] == want.data[k] by {
            lemma_ungrid(pw, ph, k);
        }
        assert(plane@ =~= want);
    }
}

} // verus!
