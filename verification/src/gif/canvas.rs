//! The canvas that frames are drawn onto, four bytes a pixel.
//!
//! A frame is a rectangle drawn onto a canvas that outlives it. It can be smaller
//! than the canvas, hang over its edges and be partly transparent.
use super::format::{deinterlace, lemma_stored_once, lemma_stored_within, stored_at, ImageDescriptor};
use vstd::prelude::*;

verus! {

/// What a canvas shows.
#[verifier::ext_equal]
pub struct Pane {
    /// Pixels in a row.
    pub width: int,
    /// Rows.
    pub height: int,
    /// Four bytes for each pixel, row by row.
    pub data: Seq<u8>,
}

/// Whether a place is in a rectangle.
pub open spec fn inside(area: ImageDescriptor, x: int, y: int) -> bool {
    area.left <= x < area.left + area.width && area.top <= y < area.top + area.height
}

/// What is laid over a canvas: four bytes at a place, or nothing.
pub type Cover = spec_fn(int, int) -> Option<Seq<u8>>;

impl Pane {
    /// Whether there are four bytes for each pixel.
    pub open spec fn wf(self) -> bool {
        &&& 0 <= self.width
        &&& 0 <= self.height
        &&& self.data.len() == 4 * (self.width * self.height)
    }

    /// Where a pixel's bytes start.
    pub open spec fn at(self, x: int, y: int) -> int {
        4 * (y * self.width + x)
    }

    /// The column of a byte.
    pub open spec fn column(self, k: int) -> int {
        (k / 4) % self.width
    }

    /// The row of a byte.
    pub open spec fn row(self, k: int) -> int {
        (k / 4) / self.width
    }

    /// Whether a place is on the canvas.
    pub open spec fn has(self, x: int, y: int) -> bool {
        0 <= x < self.width && 0 <= y < self.height
    }

    /// The bytes of a pixel.
    pub open spec fn pixel(self, x: int, y: int) -> Seq<u8> {
        self.data.subrange(self.at(x, y), self.at(x, y) + 4)
    }

    /// A canvas with a cover laid over it.
    pub open spec fn covered(self, cover: Cover) -> Pane {
        Pane {
            width: self.width,
            height: self.height,
            data: Seq::new(
                self.data.len(),
                |k: int|
                    match cover(self.column(k), self.row(k)) {
                        Some(v) => v[k % 4],
                        None => self.data[k],
                    },
            ),
        }
    }

    /// A canvas with a rectangle of one colour.
    pub open spec fn filled(self, area: ImageDescriptor, value: Seq<u8>) -> Pane {
        self.covered(fill_cover(area, value))
    }

    /// A copy of a rectangle, zero where it hangs over the edges.
    pub open spec fn saved(self, area: ImageDescriptor) -> Seq<u8> {
        Seq::new(
            (4 * (area.width * area.height)) as nat,
            |k: int|
                {
                    let x = area.left + (k / 4) % (area.width as int);
                    let y = area.top + (k / 4) / (area.width as int);
                    if self.has(x, y) {
                        self.data[self.at(x, y) + k % 4]
                    } else {
                        0
                    }
                },
        )
    }

    /// A canvas with a rectangle put back from a copy.
    pub open spec fn restored(self, area: ImageDescriptor, saved: Seq<u8>) -> Pane {
        self.covered(saved_cover(area, saved))
    }

    /// A canvas with a frame drawn onto it.
    pub open spec fn drawn(
        self,
        image: ImageDescriptor,
        indices: Seq<u8>,
        palette: Seq<[u8; 3]>,
        transparent: Option<u8>,
    ) -> Pane {
        self.covered(frame_cover(image, indices, palette, transparent))
    }
}

/// A rectangle of one colour.
pub open spec fn fill_cover(area: ImageDescriptor, value: Seq<u8>) -> Cover {
    |x: int, y: int|
        if inside(area, x, y) {
            Some(value)
        } else {
            None
        }
}

/// A cover as far as a place, row by row.
pub open spec fn before_place(cover: Cover, x: int, y: int) -> Cover {
    |i: int, j: int|
        if j < y || (j == y && i < x) {
            cover(i, j)
        } else {
            None
        }
}

/// The bytes of a place in a copy of a rectangle.
pub open spec fn saved_at(area: ImageDescriptor, x: int, y: int) -> int {
    4 * ((y - area.top) * area.width + (x - area.left))
}

/// A copy of a rectangle.
pub open spec fn saved_cover(area: ImageDescriptor, saved: Seq<u8>) -> Cover {
    |x: int, y: int|
        if inside(area, x, y) && saved_at(area, x, y) + 4 <= saved.len() {
            Some(saved.subrange(saved_at(area, x, y), saved_at(area, x, y) + 4))
        } else {
            None
        }
}

/// Where the index of a place of a frame is stored.
pub open spec fn stored_index(image: ImageDescriptor, x: int, y: int) -> int {
    stored_row(image, y - image.top) * image.width + (x - image.left)
}

/// Where a row of a frame is stored.
pub open spec fn stored_row(image: ImageDescriptor, row: int) -> int {
    if image.interlaced {
        stored_at(row, image.height as int)
    } else {
        row
    }
}

/// An entry of a palette as an opaque pixel, black past its end.
pub open spec fn opaque_pixel(palette: Seq<[u8; 3]>, entry: u8) -> Seq<u8> {
    if entry < palette.len() {
        seq![palette[entry as int]@[0], palette[entry as int]@[1], palette[entry as int]@[2], 255u8]
    } else {
        seq![0u8, 0u8, 0u8, 255u8]
    }
}

/// A frame: the entries of its indices. The transparent index, and what is behind
/// the last index, lets the canvas show through.
pub open spec fn frame_cover(
    image: ImageDescriptor,
    indices: Seq<u8>,
    palette: Seq<[u8; 3]>,
    transparent: Option<u8>,
) -> Cover {
    |x: int, y: int|
        {
            let i = stored_index(image, x, y);
            if inside(image, x, y) && i < indices.len() && transparent != Some(indices[i]) {
                Some(opaque_pixel(palette, indices[i]))
            } else {
                None
            }
        }
}

/// The places of a pixel's bytes.
proof fn lemma_bytes(p: Pane, x: int, y: int)
    requires
        p.wf(),
        p.has(x, y),
    ensures
        0 <= p.at(x, y),
        p.at(x, y) + 4 <= p.data.len(),
        forall|c: int|
            0 <= c < 4 ==> #[trigger] p.column(p.at(x, y) + c) == x && p.row(p.at(x, y) + c) == y && (p.at(x, y) + c)
                % 4 == c,
{
    let (w, h) = (p.width, p.height);
    assert(0 <= y * w + x < w * h) by (nonlinear_arith)
        requires
            0 <= x < w,
            0 <= y < h,
    ;
    assert forall|c: int| 0 <= c < 4 implies #[trigger] p.column(p.at(x, y) + c) == x && p.row(p.at(x, y) + c) == y && (
    p.at(x, y) + c) % 4 == c by {
        let n = y * w + x;
        assert((4 * n + c) / 4 == n && (4 * n + c) % 4 == c);
        assert(n % w == x && n / w == y) by (nonlinear_arith)
            requires
                n == y * w + x,
                0 <= x < w,
        ;
    }
}

/// The place of a byte.
proof fn lemma_place(p: Pane, k: int)
    requires
        p.wf(),
        0 <= k < p.data.len(),
    ensures
        p.has(p.column(k), p.row(k)),
        p.at(p.column(k), p.row(k)) + k % 4 == k,
{
    let (w, h, n) = (p.width, p.height, k / 4);
    assert(0 <= n < w * h);
    assert(w > 0) by (nonlinear_arith)
        requires
            0 <= n < w * h,
            w >= 0,
    ;
    assert(0 <= n % w < w && 0 <= n / w < h && (n / w) * w + n % w == n) by (nonlinear_arith)
        requires
            0 <= n < w * h,
            w > 0,
    ;
}

/// What a cover shows at each place: its pixel where it has one, else the canvas.
pub proof fn lemma_covered(p: Pane, cover: Cover, x: int, y: int)
    requires
        p.wf(),
        p.has(x, y),
        cover(x, y) matches Some(v) ==> v.len() == 4,
    ensures
        p.covered(cover).wf(),
        p.covered(cover).pixel(x, y) == (match cover(x, y) {
            Some(v) => v,
            None => p.pixel(x, y),
        }),
{
    lemma_bytes(p, x, y);
    let q = p.covered(cover);
    let at = p.at(x, y);
    assert forall|c: int| 0 <= c < 4 implies #[trigger] q.pixel(x, y)[c] == (match cover(x, y) {
        Some(v) => v[c],
        None => p.pixel(x, y)[c],
    }) by {
        assert(p.column(at + c) == x);
        assert(q.data[at + c] == q.pixel(x, y)[c]);
    }
    match cover(x, y) {
        Some(v) => {
            assert(q.pixel(x, y) =~= v);
        },
        None => {
            assert(q.pixel(x, y) =~= p.pixel(x, y));
        },
    }
}

/// Covers that agree everywhere on a canvas do the same to it.
proof fn lemma_same_cover(p: Pane, a: Cover, b: Cover)
    requires
        p.wf(),
        forall|x: int, y: int| p.has(x, y) ==> #[trigger] a(x, y) == b(x, y),
    ensures
        p.covered(a) == p.covered(b),
{
    assert forall|k: int| 0 <= k < p.data.len() implies #[trigger] p.covered(a).data[k] == p.covered(b).data[k] by {
        lemma_place(p, k);
        assert(a(p.column(k), p.row(k)) == b(p.column(k), p.row(k)));
    }
    assert(p.covered(a) =~= p.covered(b));
}

/// A cover that covers nothing leaves a canvas as it is.
proof fn lemma_no_cover(p: Pane, cover: Cover)
    requires
        p.wf(),
        forall|x: int, y: int| p.has(x, y) ==> (#[trigger] cover(x, y)) is None,
    ensures
        p.covered(cover) == p,
{
    assert forall|k: int| 0 <= k < p.data.len() implies #[trigger] p.covered(cover).data[k] == p.data[k] by {
        lemma_place(p, k);
        assert(cover(p.column(k), p.row(k)) is None);
    }
    assert(p.covered(cover) =~= p);
}

/// Setting one pixel is what one more place of a cover does.
proof fn lemma_cover_grows(p: Pane, was: Cover, now: Cover, x: int, y: int, data: Seq<u8>)
    requires
        p.wf(),
        p.has(x, y),
        forall|i: int, j: int| p.has(i, j) && !(i == x && j == y) ==> #[trigger] now(i, j) == was(i, j),
        now(x, y) is Some,
        data == p.covered(was).data.update(p.at(x, y), now(x, y)->0[0]).update(p.at(x, y) + 1, now(x, y)->0[1]).update(
            p.at(x, y) + 2,
            now(x, y)->0[2],
        ).update(p.at(x, y) + 3, now(x, y)->0[3]),
    ensures
        p.covered(now).data == data,
{
    let at = p.at(x, y);
    let v = now(x, y)->0;
    lemma_bytes(p, x, y);
    assert forall|k: int| 0 <= k < data.len() implies #[trigger] data[k] == p.covered(now).data[k] by {
        lemma_place(p, k);
        if at <= k < at + 4 {
            assert(p.column(at + (k - at)) == x && p.row(at + (k - at)) == y);
            assert(k % 4 == k - at);
            assert(data[k] == v[k - at]);
        } else {
            let (i, j) = (p.column(k), p.row(k));
            if i == x && j == y {
                assert(at <= k < at + 4);
            }
            assert(now(i, j) == was(i, j));
        }
    }
    assert(p.covered(now).data =~= data);
}

/// A canvas.
#[derive(Debug, Clone)]
pub struct Canvas {
    /// Pixels in a row.
    pub width: u32,
    /// Rows.
    pub height: u32,
    /// Four bytes for each pixel, row by row.
    pub data: Vec<u8>,
}

impl View for Canvas {
    type V = Pane;

    open spec fn view(&self) -> Pane {
        Pane { width: self.width as int, height: self.height as int, data: self.data@ }
    }
}

impl Canvas {
    /// Set one pixel that a cover covers.
    fn put(
        &mut self,
        x: u32,
        y: u32,
        value: &[u8; 4],
        Ghost(base): Ghost<Pane>,
        Ghost(was): Ghost<Cover>,
        Ghost(now): Ghost<Cover>,
    )
        requires
            base.wf(),
            old(self)@ == base.covered(was),
            base.has(x as int, y as int),
            forall|i: int, j: int| base.has(i, j) && !(i == x && j == y) ==> #[trigger] now(i, j) == was(i, j),
            now(x as int, y as int) == Some(value@),
        ensures
            final(self)@ == base.covered(now),
    {
        proof {
            lemma_bytes(base, x as int, y as int);
            assert(self.data@.len() == base.data.len());
            assert(self.data@.len() == self.data.len());
            let (w, i, j) = (self.width as int, x as int, y as int);
            assert(0 <= j * w <= j * w + i) by (nonlinear_arith)
                requires
                    0 <= i,
                    0 <= j,
                    0 <= w,
            ;
        }
        let at = 4 * (y as usize * self.width as usize + x as usize);
        self.data[at] = value[0];
        self.data[at + 1] = value[1];
        self.data[at + 2] = value[2];
        self.data[at + 3] = value[3];
        proof {
            lemma_cover_grows(base, was, now, x as int, y as int, self.data@);
        }
    }

    /// Fill a frame's rectangle with one pixel value.
    pub fn fill_area(&mut self, area: &ImageDescriptor, value: &[u8; 4])
        requires
            old(self)@.wf(),
        ensures
            final(self)@ == old(self)@.filled(*area, value@),
            final(self)@.wf(),
    {
        let ghost base = self@;
        let ghost cover = fill_cover(*area, value@);
        let bottom = area.top as u32 + area.height as u32;
        let right = area.left as u32 + area.width as u32;
        let mut y: u32 = area.top as u32;
        proof {
            lemma_no_cover(base, before_place(cover, area.left as int, y as int));
        }
        while y < bottom && y < self.height
            invariant
                base.wf(),
                base == old(self)@,
                cover == fill_cover(*area, value@),
                bottom == area.top + area.height,
                right == area.left + area.width,
                area.top <= y <= bottom,
                self@ == base.covered(before_place(cover, area.left as int, y as int)),
            decreases bottom - y,
        {
            let mut x: u32 = area.left as u32;
            while x < right && x < self.width
                invariant
                    base.wf(),
                    cover == fill_cover(*area, value@),
                    bottom == area.top + area.height,
                    right == area.left + area.width,
                    area.top <= y < bottom,
                    y < base.height,
                    area.left <= x <= right,
                    self@ == base.covered(before_place(cover, x as int, y as int)),
                decreases right - x,
            {
                let ghost was = before_place(cover, x as int, y as int);
                let ghost now = before_place(cover, x + 1, y as int);
                self.put(x, y, value, Ghost(base), Ghost(was), Ghost(now));
                x = x + 1;
            }
            proof {
                lemma_same_cover(
                    base,
                    before_place(cover, x as int, y as int),
                    before_place(cover, area.left as int, y + 1),
                );
            }
            y = y + 1;
        }
        proof {
            lemma_same_cover(base, before_place(cover, area.left as int, y as int), cover);
        }
    }

    /// Put a frame's rectangle back from a copy.
    pub fn restore_area(&mut self, area: &ImageDescriptor, saved: &[u8])
        requires
            old(self)@.wf(),
        ensures
            final(self)@ == old(self)@.restored(*area, saved@),
            final(self)@.wf(),
    {
        let ghost base = self@;
        let ghost cover = saved_cover(*area, saved@);
        let bottom = area.top as u32 + area.height as u32;
        let right = area.left as u32 + area.width as u32;
        let mut y: u32 = area.top as u32;
        proof {
            lemma_no_cover(base, before_place(cover, area.left as int, y as int));
        }
        while y < bottom && y < self.height
            invariant
                base.wf(),
                base == old(self)@,
                cover == saved_cover(*area, saved@),
                bottom == area.top + area.height,
                right == area.left + area.width,
                area.top <= y <= bottom,
                self@ == base.covered(before_place(cover, area.left as int, y as int)),
            decreases bottom - y,
        {
            let mut x: u32 = area.left as u32;
            while x < right && x < self.width
                invariant
                    base.wf(),
                    cover == saved_cover(*area, saved@),
                    bottom == area.top + area.height,
                    right == area.left + area.width,
                    area.top <= y < bottom,
                    y < base.height,
                    area.left <= x <= right,
                    self@ == base.covered(before_place(cover, x as int, y as int)),
                decreases right - x,
            {
                let ghost was = before_place(cover, x as int, y as int);
                let ghost now = before_place(cover, x + 1, y as int);
                let row = y - area.top as u32;
                let column = x - area.left as u32;
                proof {
                    let (r, w) = (row as int, area.width as int);
                    assert(0 <= r * w <= 65535 * 65535) by (nonlinear_arith)
                        requires
                            0 <= r <= 65535,
                            0 <= w <= 65535,
                    ;
                }
                let from: u64 = 4 * (row as u64 * area.width as u64 + column as u64);
                assert(from == saved_at(*area, x as int, y as int));
                if from + 4 <= saved.len() as u64 {
                    let at = from as usize;
                    let value = [saved[at], saved[at + 1], saved[at + 2], saved[at + 3]];
                    assert(value@ =~= saved@.subrange(at as int, at + 4));
                    self.put(x, y, &value, Ghost(base), Ghost(was), Ghost(now));
                } else {
                    proof {
                        lemma_same_cover(base, was, now);
                    }
                }
                x = x + 1;
            }
            proof {
                lemma_same_cover(
                    base,
                    before_place(cover, x as int, y as int),
                    before_place(cover, area.left as int, y + 1),
                );
            }
            y = y + 1;
        }
        proof {
            lemma_same_cover(base, before_place(cover, area.left as int, y as int), cover);
        }
    }

    /// Copy a frame's rectangle.
    pub fn save_area(&self, area: &ImageDescriptor) -> (r: Vec<u8>)
        requires
            self@.wf(),
            4 * (area.width * area.height) <= isize::MAX,
        ensures
            r@ == self@.saved(*area),
    {
        let mut out: Vec<u8> = Vec::new();
        let ghost all = self@.saved(*area);
        let ghost w = area.width as int;
        let mut row: u32 = 0;
        while row < area.height as u32
            invariant
                row <= area.height,
                self@.wf(),
                w == area.width,
                all == self@.saved(*area),
                out@ == all.take(4 * (row * w)),
                0 <= row * w,
            decreases area.height - row,
        {
            let mut column: u32 = 0;
            proof {
                assert((row + 1) * w == row * w + w && (row + 1) * w <= area.height * w) by (nonlinear_arith)
                    requires
                        row + 1 <= area.height,
                        w >= 0,
                ;
                assert(area.width * area.height == area.height * w) by (nonlinear_arith)
                    requires
                        w == area.width,
                ;
            }
            while column < area.width as u32
                invariant
                    column <= area.width,
                    row < area.height,
                    self@.wf(),
                    w == area.width,
                    all == self@.saved(*area),
                    0 <= row * w,
                    4 * (row * w + w) <= all.len(),
                    out@ == all.take(4 * (row * w + column)),
                decreases area.width - column,
            {
                let x = area.left as u32 + column;
                let y = area.top as u32 + row;
                let ghost n = row * w + column;
                proof {
                    assert(n % w == column && n / w == row as int) by (nonlinear_arith)
                        requires
                            n == row * w + column,
                            0 <= column < w,
                            row >= 0,
                    ;
                    assert forall|c: int| 0 <= c < 4 implies #[trigger] all[4 * n + c] == (if self@.has(x as int, y as int) {
                        self.data@[self@.at(x as int, y as int) + c]
                    } else {
                        0
                    }) by {
                        assert((4 * n + c) / 4 == n && (4 * n + c) % 4 == c);
                    }
                    assert(all[4 * n + 0] == all[4 * n]);
                }
                let value = if x < self.width && y < self.height {
                    self.pixel_bytes(x, y)
                } else {
                    [0, 0, 0, 0]
                };
                out.push(value[0]);
                out.push(value[1]);
                out.push(value[2]);
                out.push(value[3]);
                proof {
                    assert(all[4 * n + 0] == value@[0] && all[4 * n + 1] == value@[1] && all[4 * n + 2] == value@[2] && all[4
                        * n + 3] == value@[3]);
                    assert(out@ =~= all.take(4 * (n + 1)));
                }
                column = column + 1;
            }
            row = row + 1;
        }
        proof {
            assert(area.width * area.height == area.height * w) by (nonlinear_arith)
                requires
                    w == area.width,
            ;
            assert(all.take(all.len() as int) =~= all);
        }
        out
    }

    /// The bytes of a pixel.
    fn pixel_bytes(&self, x: u32, y: u32) -> (r: [u8; 4])
        requires
            self@.wf(),
            self@.has(x as int, y as int),
        ensures
            r@ == self@.pixel(x as int, y as int),
            forall|c: int| 0 <= c < 4 ==> #[trigger] r@[c] == self.data@[self@.at(x as int, y as int) + c],
    {
        proof {
            lemma_bytes(self@, x as int, y as int);
            assert(self.data@.len() == self.data.len());
            let (w, i, j) = (self.width as int, x as int, y as int);
            assert(0 <= j * w <= j * w + i) by (nonlinear_arith)
                requires
                    0 <= i,
                    0 <= j,
                    0 <= w,
            ;
        }
        let at = 4 * (y as usize * self.width as usize + x as usize);
        let r = [self.data[at], self.data[at + 1], self.data[at + 2], self.data[at + 3]];
        assert(r@ =~= self@.pixel(x as int, y as int));
        r
    }
}

/// A frame's cover as far as a stored place.
pub open spec fn before_stored(cover: Cover, image: ImageDescriptor, x: int, stored: int) -> Cover {
    |i: int, j: int|
        if inside(image, i, j) && (stored_row(image, j - image.top) < stored || (stored_row(image, j - image.top)
            == stored && i < x)) {
            cover(i, j)
        } else {
            None
        }
}

/// Each row of a frame is stored once, and among as many rows as it has.
proof fn lemma_stored_row(image: ImageDescriptor, a: int, b: int)
    requires
        0 <= a < image.height,
        0 <= b < image.height,
    ensures
        0 <= stored_row(image, a) < image.height,
        stored_row(image, a) == stored_row(image, b) ==> a == b,
{
    lemma_stored_within(a, image.height as int);
    if image.interlaced && stored_at(a, image.height as int) == stored_at(b, image.height as int) {
        lemma_stored_once(a, b, image.height as int);
    }
}

impl Canvas {
    /// Draw the stored row of a frame that belongs in row `target`.
    fn draw_row(
        &mut self,
        image: &ImageDescriptor,
        indices: &[u8],
        palette: &[[u8; 3]],
        transparent: Option<u8>,
        stored: u32,
        target: u32,
        Ghost(base): Ghost<Pane>,
    )
        requires
            base.wf(),
            stored < image.height,
            target < image.height,
            stored_row(*image, target as int) == stored,
            old(self)@ == base.covered(
                before_stored(
                    frame_cover(*image, indices@, palette@, transparent),
                    *image,
                    image.left as int,
                    stored as int,
                ),
            ),
        ensures
            final(self)@ == base.covered(
                before_stored(
                    frame_cover(*image, indices@, palette@, transparent),
                    *image,
                    image.left as int,
                    stored + 1,
                ),
            ),
    {
        let ghost cover = frame_cover(*image, indices@, palette@, transparent);
        let ghost w = image.width as int;
        let y = image.top as u32 + target;
        if y >= self.height {
            proof {
                let a = before_stored(cover, *image, image.left as int, stored as int);
                let b = before_stored(cover, *image, image.left as int, stored + 1);
                assert forall|i: int, j: int| base.has(i, j) implies #[trigger] a(i, j) == b(i, j) by {
                    if inside(*image, i, j) {
                        lemma_stored_row(*image, j - image.top, target as int);
                    }
                }
                lemma_same_cover(base, a, b);
            }
            return;
        }
        let mut column: u32 = 0;
        while column < image.width as u32
            invariant
                column <= image.width,
                base.wf(),
                w == image.width,
                cover == frame_cover(*image, indices@, palette@, transparent),
                stored < image.height,
                target < image.height,
                stored_row(*image, target as int) == stored,
                y == image.top + target,
                y < base.height,
                self@ == base.covered(before_stored(cover, *image, image.left + column, stored as int)),
            decreases image.width - column,
        {
            let x = image.left as u32 + column;
            let ghost was = before_stored(cover, *image, x as int, stored as int);
            let ghost now = before_stored(cover, *image, x + 1, stored as int);
            proof {
                assert forall|i: int, j: int| base.has(i, j) && !(i == x && j == y) implies #[trigger] now(i, j) == was(
                    i,
                    j,
                ) by {
                    if inside(*image, i, j) {
                        lemma_stored_row(*image, j - image.top, target as int);
                    }
                }
                let s = stored as int;
                assert(0 <= s * w <= 65535 * 65535) by (nonlinear_arith)
                    requires
                        0 <= s <= 65535,
                        0 <= w <= 65535,
                ;
            }
            let index: u64 = stored as u64 * image.width as u64 + column as u64;
            assert(index == stored_index(*image, x as int, y as int));
            let mut shown: Option<u8> = None;
            if x < self.width && index < indices.len() as u64 {
                let entry = indices[index as usize];
                let hidden = match transparent {
                    Some(t) => t == entry,
                    None => false,
                };
                if !hidden {
                    shown = Some(entry);
                }
            }
            match shown {
                Some(entry) => {
                    let value = if (entry as usize) < palette.len() {
                        let c = palette[entry as usize];
                        [c[0], c[1], c[2], 255]
                    } else {
                        [0, 0, 0, 255]
                    };
                    assert(value@ =~= opaque_pixel(palette@, entry));
                    self.put(x, y, &value, Ghost(base), Ghost(was), Ghost(now));
                },
                None => {
                    proof {
                        assert forall|i: int, j: int| base.has(i, j) implies #[trigger] was(i, j) == now(i, j) by {
                            if i == x && j == y {
                                assert(cover(i, j) is None);
                            } else {
                                assert(now(i, j) == was(i, j));
                            }
                        }
                        lemma_same_cover(base, was, now);
                    }
                },
            }
            column = column + 1;
        }
        proof {
            let a = before_stored(cover, *image, image.left + column, stored as int);
            let b = before_stored(cover, *image, image.left as int, stored + 1);
            lemma_same_cover(base, a, b);
        }
    }

    /// Draw palette indices onto the canvas. A frame that hangs over the edges is
    /// clipped, and one with fewer indices than pixels leaves the rest as it was.
    pub fn composite(
        &mut self,
        image: &ImageDescriptor,
        indices: &[u8],
        palette: &[[u8; 3]],
        transparent: Option<u8>,
    )
        requires
            old(self)@.wf(),
        ensures
            final(self)@ == old(self)@.drawn(*image, indices@, palette@, transparent),
            final(self)@.wf(),
    {
        let ghost base = self@;
        let ghost cover = frame_cover(*image, indices@, palette@, transparent);
        let height = image.height as u32;
        let mut stored: u32 = 0;
        proof {
            let a = before_stored(cover, *image, image.left as int, 0);
            assert forall|i: int, j: int| base.has(i, j) implies (#[trigger] a(i, j)) is None by {
                if inside(*image, i, j) {
                    lemma_stored_row(*image, j - image.top, j - image.top);
                }
            }
            lemma_no_cover(base, a);
        }
        while stored < height
            invariant
                stored <= height,
                height == image.height,
                base.wf(),
                base == old(self)@,
                cover == frame_cover(*image, indices@, palette@, transparent),
                self@ == base.covered(before_stored(cover, *image, image.left as int, stored as int)),
            decreases height - stored,
        {
            let target = if image.interlaced {
                match deinterlace(stored, height) {
                    Some(row) => row,
                    None => stored,
                }
            } else {
                stored
            };
            self.draw_row(image, indices, palette, transparent, stored, target, Ghost(base));
            stored = stored + 1;
        }
        proof {
            let a = before_stored(cover, *image, image.left as int, stored as int);
            assert forall|i: int, j: int| base.has(i, j) implies #[trigger] a(i, j) == cover(i, j) by {
                if inside(*image, i, j) {
                    lemma_stored_row(*image, j - image.top, j - image.top);
                }
            }
            lemma_same_cover(base, a, cover);
        }
    }
}

/// A frame changes nothing outside its rectangle.
pub proof fn lemma_frame_stays_inside(
    p: Pane,
    image: ImageDescriptor,
    indices: Seq<u8>,
    palette: Seq<[u8; 3]>,
    transparent: Option<u8>,
    x: int,
    y: int,
)
    requires
        p.wf(),
        p.has(x, y),
        !inside(image, x, y),
    ensures
        p.drawn(image, indices, palette, transparent).pixel(x, y) == p.pixel(x, y),
{
    lemma_covered(p, frame_cover(image, indices, palette, transparent), x, y);
}

/// Where the index of a place is transparent the canvas shows through.
pub proof fn lemma_transparency(
    p: Pane,
    image: ImageDescriptor,
    indices: Seq<u8>,
    palette: Seq<[u8; 3]>,
    entry: u8,
    x: int,
    y: int,
)
    requires
        p.wf(),
        p.has(x, y),
        inside(image, x, y),
        stored_index(image, x, y) < indices.len(),
        indices[stored_index(image, x, y)] == entry,
    ensures
        p.drawn(image, indices, palette, Some(entry)).pixel(x, y) == p.pixel(x, y),
{
    lemma_covered(p, frame_cover(image, indices, palette, Some(entry)), x, y);
}

/// Putting back the rectangle that was saved before a frame was drawn undoes the
/// frame.
pub proof fn lemma_previous_undoes(
    p: Pane,
    image: ImageDescriptor,
    indices: Seq<u8>,
    palette: Seq<[u8; 3]>,
    transparent: Option<u8>,
)
    requires
        p.wf(),
    ensures
        p.drawn(image, indices, palette, transparent).restored(image, p.saved(image)) == p,
{
    let q = p.drawn(image, indices, palette, transparent);
    let s = p.saved(image);
    let r = q.restored(image, s);
    let w = image.width as int;
    assert forall|k: int| 0 <= k < p.data.len() implies #[trigger] r.data[k] == p.data[k] by {
        lemma_place(p, k);
        let (x, y, c) = (p.column(k), p.row(k), k % 4);
        if inside(image, x, y) {
            let n = (y - image.top) * w + (x - image.left);
            let (i, j, h) = (x - image.left, y - image.top, image.height as int);
            assert(0 <= n < w * h && n % w == i && n / w == j) by (nonlinear_arith)
                requires
                    n == j * w + i,
                    0 <= i < w,
                    0 <= j < h,
            ;
            assert((4 * n + c) / 4 == n && (4 * n + c) % 4 == c);
            assert(s[4 * n + c] == p.data[p.at(x, y) + c]);
            assert(saved_at(image, x, y) == 4 * n);
            assert(s.subrange(4 * n, 4 * n + 4)[c] == s[4 * n + c]);
        }
    }
    assert(r =~= p);
}

/// Drawing an interlaced frame is drawing it with its rows put in order.
pub proof fn lemma_interlacing_is_order(
    p: Pane,
    image: ImageDescriptor,
    plain: ImageDescriptor,
    indices: Seq<u8>,
    straight: Seq<u8>,
    palette: Seq<[u8; 3]>,
    transparent: Option<u8>,
)
    requires
        p.wf(),
        image.interlaced,
        plain == (ImageDescriptor { interlaced: false, ..image }),
        indices.len() == image.width * image.height,
        straight.len() == image.width * image.height,
        forall|row: int, column: int|
            0 <= row < image.height && 0 <= column < image.width ==> straight[row * image.width + column]
                == #[trigger] indices[stored_at(row, image.height as int) * image.width + column],
    ensures
        p.drawn(image, indices, palette, transparent) == p.drawn(plain, straight, palette, transparent),
{
    let a = frame_cover(image, indices, palette, transparent);
    let b = frame_cover(plain, straight, palette, transparent);
    let (w, h) = (image.width as int, image.height as int);
    assert forall|x: int, y: int| p.has(x, y) implies #[trigger] a(x, y) == b(x, y) by {
        if inside(image, x, y) {
            let (row, column) = (y - image.top, x - image.left);
            lemma_stored_row(image, row, row);
            let s = stored_at(row, h);
            assert(s * w + column < w * h && row * w + column < w * h) by (nonlinear_arith)
                requires
                    0 <= column < w,
                    0 <= row < h,
                    0 <= s < h,
            ;
            assert(indices[s * image.width + column] == straight[row * image.width + column]);
        }
    }
    lemma_same_cover(p, a, b);
}

} // verus!
