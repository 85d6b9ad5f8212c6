//! Mapping pixels onto a palette, with or without dithering.
//!
//! Without dithering a gradient bands visibly. Flat-colour art is unaffected by
//! it: where every colour is in the palette the error is zero and there is nothing
//! to diffuse.
use crate::math::{clamp, lemma_p2_values, p2, pow2_usize};
use vstd::prelude::*;

verus! {

/// A colour, or a difference of two.
#[verifier::ext_equal]
pub struct Rgb {
    /// Red.
    pub r: int,
    /// Green.
    pub g: int,
    /// Blue.
    pub b: int,
}

/// Part of an error in sixteenths, towards zero.
pub open spec fn part(error: int, sixteenths: int) -> int {
    if error >= 0 {
        error * sixteenths / 16
    } else {
        -((-error) * sixteenths / 16)
    }
}

impl Rgb {
    /// No difference.
    pub open spec fn zero() -> Rgb {
        Rgb { r: 0, g: 0, b: 0 }
    }

    /// A table entry.
    pub open spec fn of(entry: [u8; 3]) -> Rgb {
        Rgb { r: entry@[0] as int, g: entry@[1] as int, b: entry@[2] as int }
    }

    /// Three numbers.
    pub open spec fn wanted(colour: [i32; 3]) -> Rgb {
        Rgb { r: colour@[0] as int, g: colour@[1] as int, b: colour@[2] as int }
    }

    /// The sum of two.
    pub open spec fn plus(self, other: Rgb) -> Rgb {
        Rgb { r: self.r + other.r, g: self.g + other.g, b: self.b + other.b }
    }

    /// The difference of two.
    pub open spec fn minus(self, other: Rgb) -> Rgb {
        Rgb { r: self.r - other.r, g: self.g - other.g, b: self.b - other.b }
    }

    /// Part of an error.
    pub open spec fn share(self, sixteenths: int) -> Rgb {
        Rgb { r: part(self.r, sixteenths), g: part(self.g, sixteenths), b: part(self.b, sixteenths) }
    }

    /// The nearest colour that bytes can hold.
    pub open spec fn clamped(self) -> Rgb {
        Rgb { r: clamp(self.r, 0, 255), g: clamp(self.g, 0, 255), b: clamp(self.b, 0, 255) }
    }

    /// Whether bytes can hold it.
    pub open spec fn in_bytes(self) -> bool {
        0 <= self.r <= 255 && 0 <= self.g <= 255 && 0 <= self.b <= 255
    }

    /// Whether each part is at most a bound away from zero.
    pub open spec fn within(self, bound: int) -> bool {
        -bound <= self.r <= bound && -bound <= self.g <= bound && -bound <= self.b <= bound
    }

    /// The squared distance of two.
    pub open spec fn distance(self, other: Rgb) -> int {
        (self.r - other.r) * (self.r - other.r) + (self.g - other.g) * (self.g - other.g) + (self.b - other.b) * (
        self.b - other.b)
    }
}

/// The index of the first of the entries closest to a colour.
pub open spec fn closest(entries: Seq<[u8; 3]>, colour: Rgb) -> int
    decreases entries.len(),
{
    if entries.len() <= 1 {
        0
    } else {
        let before = closest(entries.drop_last(), colour);
        if colour.distance(Rgb::of(entries.last())) < colour.distance(Rgb::of(entries[before])) {
            entries.len() - 1
        } else {
            before
        }
    }
}

/// No entry is closer than the closest, and none before it is as close.
pub proof fn lemma_closest(entries: Seq<[u8; 3]>, colour: Rgb)
    requires
        entries.len() > 0,
    ensures
        ({
            let k = closest(entries, colour);
            &&& 0 <= k < entries.len()
            &&& forall|j: int|
                0 <= j < entries.len() ==> colour.distance(Rgb::of(entries[k])) <= colour.distance(
                    Rgb::of(#[trigger] entries[j]),
                )
            &&& forall|j: int|
                0 <= j < k ==> colour.distance(Rgb::of(entries[k])) < colour.distance(Rgb::of(#[trigger] entries[j]))
        }),
    decreases entries.len(),
{
    if entries.len() > 1 {
        let front = entries.drop_last();
        lemma_closest(front, colour);
        assert forall|j: int| 0 <= j < front.len() implies front[j] == entries[j] by {}
        let k = closest(entries, colour);
        assert forall|j: int| 0 <= j < entries.len() implies colour.distance(Rgb::of(entries[k])) <= colour.distance(
            Rgb::of(#[trigger] entries[j]),
        ) by {
            if j < front.len() {
                assert(front[j] == entries[j]);
            }
        }
        assert forall|j: int| 0 <= j < k implies colour.distance(Rgb::of(entries[k])) < colour.distance(
            Rgb::of(#[trigger] entries[j]),
        ) by {
            assert(front[j] == entries[j]);
        }
    }
}

/// A squared distance is zero exactly between equal colours.
proof fn lemma_distance_zero(a: Rgb, b: Rgb)
    ensures
        a.distance(b) >= 0,
        a.distance(b) == 0 <==> a == b,
{
    let (x, y, z) = (a.r - b.r, a.g - b.g, a.b - b.b);
    assert(x * x >= 0 && (x * x == 0 <==> x == 0)) by (nonlinear_arith);
    assert(y * y >= 0 && (y * y == 0 <==> y == 0)) by (nonlinear_arith);
    assert(z * z >= 0 && (z * z == 0 <==> z == 0)) by (nonlinear_arith);
    assert(a == b <==> (x == 0 && y == 0 && z == 0));
}

/// The closest entry to a colour of the table is that colour.
pub proof fn lemma_closest_exact(entries: Seq<[u8; 3]>, at: int)
    requires
        0 <= at < entries.len(),
    ensures
        Rgb::of(entries[closest(entries, Rgb::of(entries[at]))]) == Rgb::of(entries[at]),
{
    let colour = Rgb::of(entries[at]);
    lemma_closest(entries, colour);
    lemma_distance_zero(colour, colour);
    lemma_distance_zero(colour, Rgb::of(entries[closest(entries, colour)]));
}

/// The bits of an index into a table of `len` entries: the table is rounded up to a
/// power of two, and has at least two entries and at most 256.
pub open spec fn bits_for(len: int) -> int {
    if len <= 2 {
        1
    } else if len <= 4 {
        2
    } else if len <= 8 {
        3
    } else if len <= 16 {
        4
    } else if len <= 32 {
        5
    } else if len <= 64 {
        6
    } else if len <= 128 {
        7
    } else {
        8
    }
}

/// A colour table of at most 256 entries.
#[derive(Debug, Clone, PartialEq, Eq)]
pub struct Palette {
    entries: Vec<[u8; 3]>,
}

impl View for Palette {
    type V = Seq<[u8; 3]>;

    closed spec fn view(&self) -> Seq<[u8; 3]> {
        self.entries@
    }
}

impl Default for Palette {
    fn default() -> (r: Palette)
        ensures
            r@ == Seq::<[u8; 3]>::empty(),
            r.wf(),
    {
        Palette { entries: Vec::new() }
    }
}

impl Palette {
    /// Whether the table is no longer than it may be.
    pub open spec fn wf(&self) -> bool {
        self@.len() <= 256
    }

    /// Build a palette from entries, of which those past 256 are dropped.
    pub fn new(entries: Vec<[u8; 3]>) -> (r: Palette)
        ensures
            r.wf(),
            entries@.len() <= 256 ==> r@ == entries@,
            entries@.len() > 256 ==> r@ == entries@.take(256),
    {
        let mut entries = entries;
        entries.truncate(256);
        Palette { entries }
    }

    /// The entries, in index order.
    pub fn entries(&self) -> (r: &[[u8; 3]])
        ensures
            r@ == self@,
    {
        self.entries.as_slice()
    }

    /// How many entries the table holds.
    pub fn len(&self) -> (r: usize)
        ensures
            r == self@.len(),
    {
        self.entries.len()
    }

    /// Whether the palette is empty.
    pub fn is_empty(&self) -> (r: bool)
        ensures
            r == (self@.len() == 0),
    {
        self.entries.len() == 0
    }

    /// The bits per index that a table of this size needs.
    pub fn code_bits(&self) -> (r: u32)
        ensures
            r == bits_for(self@.len() as int),
    {
        let len = self.entries.len();
        if len <= 2 {
            1
        } else if len <= 4 {
            2
        } else if len <= 8 {
            3
        } else if len <= 16 {
            4
        } else if len <= 32 {
            5
        } else if len <= 64 {
            6
        } else if len <= 128 {
            7
        } else {
            8
        }
    }

    /// The table padded with black to a power of two.
    pub fn padded(&self) -> (r: Vec<[u8; 3]>)
        requires
            self.wf(),
        ensures
            r@.len() == p2(bits_for(self@.len() as int)),
            r@.len() >= self@.len(),
            forall|i: int| 0 <= i < self@.len() ==> r@[i] == self@[i],
            forall|i: int| self@.len() <= i < r@.len() ==> #[trigger] r@[i] == [0u8, 0u8, 0u8],
    {
        let size = pow2_usize(self.code_bits());
        proof {
            lemma_p2_values();
        }
        let mut out: Vec<[u8; 3]> = Vec::new();
        let mut i: usize = 0;
        while i < self.entries.len()
            invariant
                i <= self@.len(),
                out@ == self@.take(i as int),
            decreases self@.len() - i,
        {
            out.push(self.entries[i]);
            assert(self@.take(i + 1) =~= self@.take(i as int).push(self@[i as int]));
            i = i + 1;
        }
        while out.len() < size
            invariant
                self@.len() <= out@.len() <= size,
                forall|i: int| 0 <= i < self@.len() ==> out@[i] == self@[i],
                forall|i: int| self@.len() <= i < out@.len() ==> #[trigger] out@[i] == [0u8, 0u8, 0u8],
            decreases size - out@.len(),
        {
            out.push([0, 0, 0]);
        }
        out
    }

    /// The index of the first of the entries closest to a colour by squared
    /// distance, zero where there is none.
    pub fn nearest(&self, colour: [i32; 3]) -> (r: u8)
        requires
            self.wf(),
            forall|i: int|
                0 <= i < self@.len() ==> Rgb::wanted(colour).distance(Rgb::of(#[trigger] self@[i])) <= i32::MAX,
        ensures
            r == closest(self@, Rgb::wanted(colour)),
    {
        let ghost aim = Rgb::wanted(colour);
        let mut best: usize = 0;
        let mut least: i32 = i32::MAX;
        let mut index: usize = 0;
        while index < self.entries.len()
            invariant
                index <= self@.len(),
                self.wf(),
                aim == Rgb::wanted(colour),
                best == closest(self@.take(index as int), aim),
                index == 0 ==> least == i32::MAX,
                index > 0 ==> best < index && least == aim.distance(Rgb::of(self@[best as int])),
                forall|i: int| 0 <= i < self@.len() ==> aim.distance(Rgb::of(#[trigger] self@[i])) <= i32::MAX,
            decreases self@.len() - index,
        {
            let entry = self.entries[index];
            let distance = squared_distance(&colour, &entry);
            proof {
                let t = self@.take(index + 1);
                assert(t.drop_last() =~= self@.take(index as int));
                assert(t.last() == entry);
                if index > 0 {
                    assert(t[best as int] == self@[best as int]);
                    assert(self@.take(index as int)[best as int] == self@[best as int]);
                }
            }
            if distance < least {
                least = distance;
                best = index;
            }
            index = index + 1;
        }
        assert(self@.take(self@.len() as int) =~= self@);
        best as u8
    }
}

/// The squared distance of a colour and an entry.
fn squared_distance(colour: &[i32; 3], entry: &[u8; 3]) -> (r: i32)
    requires
        Rgb::wanted(*colour).distance(Rgb::of(*entry)) <= i32::MAX,
    ensures
        r == Rgb::wanted(*colour).distance(Rgb::of(*entry)),
{
    proof {
        let (x, y, z) = (colour@[0] - entry@[0], colour@[1] - entry@[1], colour@[2] - entry@[2]);
        assert(x * x >= 0 && y * y >= 0 && z * z >= 0) by (nonlinear_arith);
        assert(-50000 < x < 50000) by (nonlinear_arith)
            requires
                x * x <= i32::MAX,
        ;
        assert(-50000 < y < 50000) by (nonlinear_arith)
            requires
                y * y <= i32::MAX,
        ;
        assert(-50000 < z < 50000) by (nonlinear_arith)
            requires
                z * z <= i32::MAX,
        ;
    }
    let dr = colour[0] - entry[0] as i32;
    let dg = colour[1] - entry[1] as i32;
    let db = colour[2] - entry[2] as i32;
    dr * dr + dg * dg + db * db
}

/// How the error is handled when pixels are mapped to a palette.
#[derive(Debug, Clone, Copy, PartialEq, Eq, Hash, Structural)]
pub enum Dither {
    /// Diffuse the error to neighbouring pixels.
    FloydSteinberg,
    /// Map each pixel by itself to its nearest entry.
    Off,
}

impl Default for Dither {
    fn default() -> (r: Dither)
        ensures
            r is FloydSteinberg,
    {
        Dither::FloydSteinberg
    }
}

/// A pixel of an image of three bytes each.
pub open spec fn pixel_at(pixels: Seq<u8>, i: int) -> Rgb {
    Rgb { r: pixels[3 * i] as int, g: pixels[3 * i + 1] as int, b: pixels[3 * i + 2] as int }
}

/// An image that is dithered onto a table.
pub struct Dithering {
    /// The image.
    pub pixels: Seq<u8>,
    /// Its width.
    pub width: int,
    /// The table.
    pub entries: Seq<[u8; 3]>,
}

impl Dithering {
    /// What the closest entry to a colour lacks of it.
    pub open spec fn missed(self, aim: Rgb) -> Rgb {
        aim.minus(Rgb::of(self.entries[closest(self.entries, aim)]))
    }

    /// The colour that is looked for at a place: the pixel, with a part of what was
    /// missed to the left of it, above it to the right, above it, and above it to
    /// the left.
    #[verifier::opaque]
    pub open spec fn aim(self, y: int, x: int) -> Rgb
        decreases y, x,
    {
        if y < 0 || x < 0 {
            Rgb::zero()
        } else {
            let left = if x > 0 {
                self.missed(self.aim(y, x - 1)).share(7)
            } else {
                Rgb::zero()
            };
            let right_above = if y > 0 && x + 1 < self.width {
                self.missed(self.aim(y - 1, x + 1)).share(3)
            } else {
                Rgb::zero()
            };
            let above = if y > 0 {
                self.missed(self.aim(y - 1, x)).share(5)
            } else {
                Rgb::zero()
            };
            let left_above = if y > 0 && x > 0 {
                self.missed(self.aim(y - 1, x - 1)).share(1)
            } else {
                Rgb::zero()
            };
            pixel_at(self.pixels, y * self.width + x).plus(right_above.plus(above).plus(left_above).plus(left)).clamped()
        }
    }

    /// The index that is chosen at a place.
    pub open spec fn index(self, y: int, x: int) -> int {
        closest(self.entries, self.aim(y, x))
    }

    /// What was missed at a place, if it is among the first `done` of its row.
    pub open spec fn known(self, y: int, done: int, x: int) -> Rgb {
        if 0 <= x < done {
            self.missed(self.aim(y, x))
        } else {
            Rgb::zero()
        }
    }

    /// What the first `done` pixels of row `y` leave to a place of the row below.
    pub open spec fn below(self, y: int, done: int, x: int) -> Rgb {
        self.known(y, done, x + 1).share(3).plus(self.known(y, done, x).share(5)).plus(
            self.known(y, done, x - 1).share(1),
        )
    }

    /// What the row above leaves to a place.
    pub open spec fn left_over(self, y: int, x: int) -> Rgb {
        if y > 0 {
            self.below(y - 1, self.width, x)
        } else {
            Rgb::zero()
        }
    }

    /// What the pixel to the left leaves to a place.
    pub open spec fn pushed(self, y: int, x: int) -> Rgb {
        if x > 0 {
            self.missed(self.aim(y, x - 1)).share(7)
        } else {
            Rgb::zero()
        }
    }

    /// The colour looked for, by what the row above and the pixel to the left
    /// leave.
    proof fn lemma_aim(self, y: int, x: int)
        requires
            y >= 0,
            0 <= x < self.width,
        ensures
            self.aim(y, x) == pixel_at(self.pixels, y * self.width + x).plus(
                self.left_over(y, x).plus(self.pushed(y, x)),
            ).clamped(),
    {
        reveal_with_fuel(Dithering::aim, 2);
        assert(part(0, 3) == 0 && part(0, 5) == 0 && part(0, 1) == 0);
    }

    /// A colour that is looked for fits bytes, and no more than 255 is missed.
    proof fn lemma_missed(self, y: int, x: int)
        requires
            y >= 0,
            x >= 0,
            self.entries.len() > 0,
        ensures
            self.aim(y, x).in_bytes(),
            self.missed(self.aim(y, x)).within(255),
    {
        reveal_with_fuel(Dithering::aim, 2);
        lemma_closest(self.entries, self.aim(y, x));
    }

    /// What is left to a place is bounded.
    proof fn lemma_below(self, y: int, done: int, x: int)
        requires
            y >= 0,
            self.entries.len() > 0,
        ensures
            self.below(y, done, x).within(600),
    {
        if 0 <= x + 1 < done {
            self.lemma_missed(y, x + 1);
        }
        if 0 <= x < done {
            self.lemma_missed(y, x);
        }
        if 0 <= x - 1 < done {
            self.lemma_missed(y, x - 1);
        }
    }
}

/// One pixel more leaves a part of what it missed to three places of the row
/// below.
proof fn lemma_below_step(d: Dithering, y: int, x: int, p: int)
    requires
        x >= 0,
    ensures
        ({
            let m = d.missed(d.aim(y, x));
            let was = d.below(y, x, p);
            d.below(y, x + 1, p) == (if p == x - 1 {
                was.plus(m.share(3))
            } else if p == x {
                was.plus(m.share(5))
            } else if p == x + 1 {
                was.plus(m.share(1))
            } else {
                was
            })
        }),
{
    assert(part(0, 3) == 0 && part(0, 5) == 0 && part(0, 1) == 0);
}

/// Once the errors of a pixel are diffused, they are carried past it.
proof fn lemma_carried_on(d: Dithering, y: int, x: int, current: Seq<i32>, next: Seq<i32>, on: Seq<i32>, down: Seq<i32>)
    requires
        0 <= x < d.width,
        carries(d, y, x, current, next),
        on.len() == current.len(),
        down.len() == next.len(),
        forall|p: int| x < p <= d.width && p != x + 1 ==> #[trigger] slot(on, p) == slot(current, p),
        slot(on, x + 1) == slot(current, x + 1).plus(d.missed(d.aim(y, x)).share(7)),
        slot(down, x - 1) == slot(next, x - 1).plus(d.missed(d.aim(y, x)).share(3)),
        slot(down, x) == slot(next, x).plus(d.missed(d.aim(y, x)).share(5)),
        slot(down, x + 1) == slot(next, x + 1).plus(d.missed(d.aim(y, x)).share(1)),
        forall|p: int|
            -1 <= p <= d.width && p != x - 1 && p != x && p != x + 1 ==> #[trigger] slot(down, p) == slot(next, p),
    ensures
        carries(d, y, x + 1, on, down),
{
    assert forall|p: int| -1 <= p <= d.width implies #[trigger] slot(down, p) == d.below(y, x + 1, p) by {
        assert(slot(next, p) == d.below(y, x, p));
        lemma_below_step(d, y, x, p);
    }
    assert forall|p: int| x + 1 < p <= d.width implies #[trigger] slot(on, p) == d.left_over(y, p) by {
        assert(slot(current, p) == d.left_over(y, p));
    }
    assert(slot(current, x + 1) == d.left_over(y, x + 1));
}

/// The places of a row of errors, one before the first pixel and one behind the
/// last.
pub open spec fn slot(row: Seq<i32>, x: int) -> Rgb {
    Rgb { r: row[3 * x + 3] as int, g: row[3 * x + 4] as int, b: row[3 * x + 5] as int }
}

/// Part of an error in sixteenths, towards zero.
fn share_of(error: i32, sixteenths: i32) -> (r: i32)
    requires
        -255 <= error <= 255,
        0 <= sixteenths <= 16,
    ensures
        r == part(error as int, sixteenths as int),
        -255 <= r <= 255,
{
    proof {
        let e = if error >= 0 {
            error as int
        } else {
            -error
        };
        assert(0 <= e * sixteenths <= 16 * e) by (nonlinear_arith)
            requires
                0 <= e,
                0 <= sixteenths <= 16,
        ;
    }
    if error >= 0 {
        error * sixteenths / 16
    } else {
        -((-error) * sixteenths / 16)
    }
}

/// Leave part of an error to a place of a row.
fn diffuse(row: &mut Vec<i32>, place: usize, error: &[i32; 3], sixteenths: i32)
    requires
        3 * place + 2 < old(row)@.len(),
        old(row)@.len() <= usize::MAX,
        Rgb::wanted(*error).within(255),
        slot(old(row)@, place - 1).within(10_000),
        0 <= sixteenths <= 16,
    ensures
        final(row)@.len() == old(row)@.len(),
        slot(final(row)@, place - 1) == slot(old(row)@, place - 1).plus(Rgb::wanted(*error).share(sixteenths as int)),
        forall|x: int|
            -1 <= x && 3 * x + 5 < old(row)@.len() && x != place - 1 ==> #[trigger] slot(final(row)@, x) == slot(
                old(row)@,
                x,
            ),
{
    let at = 3 * place;
    let r = share_of(error[0], sixteenths);
    let g = share_of(error[1], sixteenths);
    let b = share_of(error[2], sixteenths);
    let was_r = row[at];
    let was_g = row[at + 1];
    let was_b = row[at + 2];
    row[at] = was_r + r;
    row[at + 1] = was_g + g;
    row[at + 2] = was_b + b;
}

/// The nearest value of a byte.
fn byte_range(value: i32) -> (r: i32)
    ensures
        r == clamp(value as int, 0, 255),
{
    if value < 0 {
        0
    } else if value > 255 {
        255
    } else {
        value
    }
}

/// The index of each pixel of an image. With dithering, pixels behind the last
/// whole row have index zero.
pub open spec fn indices_of(pixels: Seq<u8>, width: int, entries: Seq<[u8; 3]>, dither: Dither) -> Seq<int> {
    let count = pixels.len() / 3;
    if entries.len() == 0 || width <= 0 {
        Seq::new(count as nat, |i: int| 0int)
    } else if dither is Off {
        Seq::new(count as nat, |i: int| closest(entries, pixel_at(pixels, i)))
    } else {
        let d = Dithering { pixels, width, entries };
        Seq::new(
            count as nat,
            |i: int|
                if i < (count as int / width) * width {
                    d.index(i / width, i % width)
                } else {
                    0int
                },
        )
    }
}

/// What bytes hold as numbers.
pub open spec fn numbers(s: Seq<u8>) -> Seq<int> {
    Seq::new(s.len(), |i: int| s[i] as int)
}

/// Map each pixel by itself.
fn quantize_plain(pixels: &[u8], palette: &Palette) -> (r: Vec<u8>)
    requires
        palette.wf(),
        palette@.len() > 0,
    ensures
        numbers(r@) == indices_of(pixels@, 1, palette@, Dither::Off),
{
    let count = pixels.len() / 3;
    let mut out: Vec<u8> = Vec::new();
    let mut i: usize = 0;
    while i < count
        invariant
            i <= count,
            count == pixels@.len() / 3,
            pixels@.len() == pixels.len(),
            palette.wf(),
            palette@.len() > 0,
            out@.len() == i,
            forall|j: int| 0 <= j < i ==> #[trigger] out@[j] == closest(palette@, pixel_at(pixels@, j)),
        decreases count - i,
    {
        let colour = [pixels[3 * i] as i32, pixels[3 * i + 1] as i32, pixels[3 * i + 2] as i32];
        assert(Rgb::wanted(colour) == pixel_at(pixels@, i as int));
        proof {
            lemma_distances_fit(Rgb::wanted(colour), palette@);
            lemma_closest(palette@, pixel_at(pixels@, i as int));
        }
        out.push(palette.nearest(colour));
        i = i + 1;
    }
    assert(numbers(out@) =~= indices_of(pixels@, 1, palette@, Dither::Off));
    out
}

/// The squared distances of a colour of bytes fit.
proof fn lemma_distances_fit(colour: Rgb, entries: Seq<[u8; 3]>)
    requires
        colour.in_bytes(),
    ensures
        forall|i: int| 0 <= i < entries.len() ==> colour.distance(Rgb::of(#[trigger] entries[i])) <= i32::MAX,
{
    assert forall|i: int| 0 <= i < entries.len() implies colour.distance(Rgb::of(#[trigger] entries[i])) <= i32::MAX by {
        let e = Rgb::of(entries[i]);
        let (x, y, z) = (colour.r - e.r, colour.g - e.g, colour.b - e.b);
        assert(x * x <= 65025) by (nonlinear_arith)
            requires
                -255 <= x <= 255,
        ;
        assert(y * y <= 65025) by (nonlinear_arith)
            requires
                -255 <= y <= 255,
        ;
        assert(z * z <= 65025) by (nonlinear_arith)
            requires
                -255 <= z <= 255,
        ;
    }
}

/// Whether the errors carried are those that the pixels before place `x` of row `y`
/// leave.
spec fn carries(d: Dithering, y: int, x: int, current: Seq<i32>, next: Seq<i32>) -> bool {
    &&& current.len() == 3 * (d.width + 2)
    &&& next.len() == 3 * (d.width + 2)
    &&& forall|p: int|
        x < p <= d.width ==> #[trigger] slot(current, p) == d.left_over(y, p)
    &&& slot(current, x) == d.left_over(y, x).plus(d.pushed(y, x))
    &&& forall|p: int| -1 <= p <= d.width ==> #[trigger] slot(next, p) == d.below(y, x, p)
}

/// The errors carried around a pixel are bounded.
proof fn lemma_carried_bounds(d: Dithering, y: int, x: int, current: Seq<i32>, next: Seq<i32>)
    requires
        y >= 0,
        0 <= x < d.width,
        d.entries.len() > 0,
        carries(d, y, x, current, next),
    ensures
        slot(current, x).within(1000),
        slot(current, x + 1).within(1000),
        slot(next, x - 1).within(1000),
        slot(next, x).within(1000),
        slot(next, x + 1).within(1000),
{
    if y > 0 {
        d.lemma_below(y - 1, d.width, x);
        d.lemma_below(y - 1, d.width, x + 1);
    }
    if x > 0 {
        d.lemma_missed(y, x - 1);
    }
    d.lemma_below(y, x, x - 1);
    d.lemma_below(y, x, x);
    d.lemma_below(y, x, x + 1);
    assert(slot(current, x + 1) == d.left_over(y, x + 1));
    assert(slot(next, x - 1) == d.below(y, x, x - 1));
    assert(slot(next, x) == d.below(y, x, x));
    assert(slot(next, x + 1) == d.below(y, x, x + 1));
}

/// Choose an entry for a pixel with an error carried to it: the index, and what the
/// entry misses.
fn choose_entry(pixel: [u8; 3], carried: [i32; 3], palette: &Palette) -> (r: (u8, [i32; 3]))
    requires
        palette.wf(),
        palette@.len() > 0,
        Rgb::wanted(carried).within(1000),
    ensures
        ({
            let aim = Rgb::of(pixel).plus(Rgb::wanted(carried)).clamped();
            &&& r.0 == closest(palette@, aim)
            &&& Rgb::wanted(r.1) == aim.minus(Rgb::of(palette@[closest(palette@, aim)]))
            &&& Rgb::wanted(r.1).within(255)
        }),
{
    let wanted = [
        byte_range(pixel[0] as i32 + carried[0]),
        byte_range(pixel[1] as i32 + carried[1]),
        byte_range(pixel[2] as i32 + carried[2]),
    ];
    assert(Rgb::wanted(wanted) == Rgb::of(pixel).plus(Rgb::wanted(carried)).clamped());
    proof {
        lemma_distances_fit(Rgb::wanted(wanted), palette@);
        lemma_closest(palette@, Rgb::wanted(wanted));
    }
    let chosen = palette.nearest(wanted);
    let entry = palette.entries()[chosen as usize];
    (chosen, [wanted[0] - entry[0] as i32, wanted[1] - entry[1] as i32, wanted[2] - entry[2] as i32])
}

/// Leave what a pixel missed to its neighbours.
fn diffuse_around(
    x: usize,
    error: &[i32; 3],
    current: &mut Vec<i32>,
    next: &mut Vec<i32>,
    Ghost(d): Ghost<Dithering>,
    Ghost(y): Ghost<int>,
)
    requires
        d.entries.len() > 0,
        y >= 0,
        x < d.width,
        3 * (d.width + 2) <= usize::MAX,
        Rgb::wanted(*error) == d.missed(d.aim(y, x as int)),
        Rgb::wanted(*error).within(255),
        carries(d, y, x as int, old(current)@, old(next)@),
    ensures
        carries(d, y, x + 1, final(current)@, final(next)@),
{
    let ghost (cur0, next0) = (current@, next@);
    proof {
        lemma_carried_bounds(d, y, x as int, cur0, next0);
    }
    diffuse(current, x + 2, error, 7);
    diffuse(next, x, error, 3);
    let ghost next1 = next@;
    assert(slot(next1, x as int) == slot(next0, x as int));
    assert(slot(next1, x + 1) == slot(next0, x + 1));
    diffuse(next, x + 1, error, 5);
    let ghost next2 = next@;
    assert(slot(next2, x + 1) == slot(next1, x + 1));
    diffuse(next, x + 2, error, 1);
    proof {
        assert(slot(next@, x - 1) == slot(next2, x - 1));
        assert(slot(next2, x - 1) == slot(next1, x - 1));
        assert(slot(next@, x as int) == slot(next2, x as int));
        assert forall|p: int|
            -1 <= p <= d.width && p != x - 1 && p != x && p != x + 1 implies #[trigger] slot(next@, p) == slot(next0, p) by {
            assert(slot(next@, p) == slot(next2, p));
            assert(slot(next2, p) == slot(next1, p));
        }
        lemma_carried_on(d, y, x as int, cur0, next0, current@, next@);
    }
}

/// Map one pixel and diffuse its error.
fn dither_pixel(
    pixel: [u8; 3],
    palette: &Palette,
    x: usize,
    current: &mut Vec<i32>,
    next: &mut Vec<i32>,
    Ghost(d): Ghost<Dithering>,
    Ghost(y): Ghost<int>,
) -> (r: u8)
    requires
        palette.wf(),
        palette@.len() > 0,
        d.entries == palette@,
        y >= 0,
        x < d.width,
        3 * (d.width + 2) <= usize::MAX,
        Rgb::of(pixel) == pixel_at(d.pixels, y * d.width + x),
        carries(d, y, x as int, old(current)@, old(next)@),
    ensures
        r == d.index(y, x as int),
        carries(d, y, x + 1, final(current)@, final(next)@),
{
    let at = 3 * (x + 1);
    let carried = [current[at], current[at + 1], current[at + 2]];
    proof {
        assert(Rgb::wanted(carried) == slot(current@, x as int));
        lemma_carried_bounds(d, y, x as int, current@, next@);
        d.lemma_aim(y, x as int);
    }
    let (chosen, error) = choose_entry(pixel, carried, palette);
    diffuse_around(x, &error, current, next, Ghost(d), Ghost(y));
    chosen
}

/// An index into an image of whole rows, and its place.
proof fn lemma_place(y: int, x: int, width: int)
    requires
        0 <= x < width,
        y >= 0,
    ensures
        (y * width + x) / width == y,
        (y * width + x) % width == x,
        y * width + x >= 0,
{
    assert((y * width + x) / width == y && (y * width + x) % width == x && y * width >= 0) by (nonlinear_arith)
        requires
            0 <= x < width,
            y >= 0,
    ;
}

/// Map an image with its errors diffused.
fn quantize_dithered(pixels: &[u8], width: usize, palette: &Palette) -> (r: Vec<u8>)
    requires
        palette.wf(),
        palette@.len() > 0,
        width > 0,
        3 * (width + 2) <= usize::MAX,
    ensures
        numbers(r@) == indices_of(pixels@, width as int, palette@, Dither::FloydSteinberg),
{
    let count = pixels.len() / 3;
    let height = count / width;
    let ghost d = Dithering { pixels: pixels@, width: width as int, entries: palette@ };
    let places = 3 * (width + 2);
    let mut out: Vec<u8> = Vec::new();
    let mut current: Vec<i32> = vec![0; places];
    let mut y: usize = 0;
    proof {
        assert(height * width <= count) by (nonlinear_arith)
            requires
                height == count / width,
                width > 0,
        ;
        assert(part(0, 3) == 0 && part(0, 5) == 0 && part(0, 1) == 0);
        assert forall|p: int| -1 <= p <= width implies #[trigger] slot(current@, p) == d.left_over(0, p) by {}
    }
    while y < height
        invariant
            y <= height,
            height * width <= count,
            count == pixels@.len() / 3,
            pixels@.len() == pixels.len(),
            palette.wf(),
            palette@.len() > 0,
            width > 0,
            places == 3 * (width + 2),
            d == (Dithering { pixels: pixels@, width: width as int, entries: palette@ }),
            out@.len() == y * width,
            current@.len() == places,
            forall|p: int| -1 <= p <= width ==> #[trigger] slot(current@, p) == d.left_over(y as int, p),
            forall|i: int| 0 <= i < out@.len() ==> #[trigger] out@[i] == d.index(i / (width as int), i % (width as int)),
        decreases height - y,
    {
        let mut next: Vec<i32> = vec![0; places];
        let mut x: usize = 0;
        proof {
            assert(part(0, 3) == 0 && part(0, 5) == 0 && part(0, 1) == 0);
            assert(carries(d, y as int, 0, current@, next@)) by {
                assert forall|p: int| -1 <= p <= width implies #[trigger] slot(next@, p) == d.below(y as int, 0, p) by {}
                assert(slot(current@, 0) == d.left_over(y as int, 0));
            }
            assert((y + 1) * width <= height * width) by (nonlinear_arith)
                requires
                    y < height,
            ;
            assert((y + 1) * width == y * width + width) by (nonlinear_arith);
        }
        while x < width
            invariant
                x <= width,
                y < height,
                y * width + width <= count,
                count == pixels@.len() / 3,
                pixels@.len() == pixels.len(),
                palette.wf(),
                palette@.len() > 0,
                width > 0,
                places == 3 * (width + 2),
                d == (Dithering { pixels: pixels@, width: width as int, entries: palette@ }),
                out@.len() == y * width + x,
                carries(d, y as int, x as int, current@, next@),
                forall|i: int|
                    0 <= i < out@.len() ==> #[trigger] out@[i] == d.index(i / (width as int), i % (width as int)),
            decreases width - x,
        {
            let index = out.len();
            proof {
                lemma_place(y as int, x as int, width as int);
            }
            let pixel = [pixels[3 * index], pixels[3 * index + 1], pixels[3 * index + 2]];
            let chosen = dither_pixel(pixel, palette, x, &mut current, &mut next, Ghost(d), Ghost(y as int));
            out.push(chosen);
            x = x + 1;
        }
        proof {
            assert forall|p: int| -1 <= p <= width implies #[trigger] slot(next@, p) == d.left_over(y + 1, p) by {
                assert(slot(next@, p) == d.below(y as int, x as int, p));
            }
            assert((y + 1) * width == y * width + width) by (nonlinear_arith);
        }
        current = next;
        y = y + 1;
    }
    while out.len() < count
        invariant
            height * width <= out@.len() <= count,
            forall|i: int|
                0 <= i < height * width ==> #[trigger] out@[i] == d.index(i / (width as int), i % (width as int)),
            forall|i: int| height * width <= i < out@.len() ==> #[trigger] out@[i] == 0,
        decreases count - out@.len(),
    {
        out.push(0);
    }
    assert(numbers(out@) =~= indices_of(pixels@, width as int, palette@, Dither::FloydSteinberg));
    out
}

/// Every pixel of an image gets one index, and it is one of the table.
pub proof fn lemma_quantized(pixels: Seq<u8>, width: int, entries: Seq<[u8; 3]>, dither: Dither)
    requires
        entries.len() > 0,
    ensures
        ({
            let r = indices_of(pixels, width, entries, dither);
            &&& r.len() == pixels.len() / 3
            &&& forall|i: int| 0 <= i < r.len() ==> 0 <= #[trigger] r[i] < entries.len()
        }),
{
    let r = indices_of(pixels, width, entries, dither);
    assert forall|i: int| 0 <= i < r.len() implies 0 <= #[trigger] r[i] < entries.len() by {
        let d = Dithering { pixels, width, entries };
        lemma_closest(entries, pixel_at(pixels, i));
        lemma_closest(entries, d.aim(i / width, i % width));
    }
}

/// An image of whole rows gets an index for each place of each row; without dithering
/// it is that of the entry nearest to the pixel.
pub proof fn lemma_rows_quantized(pixels: Seq<u8>, width: int, rows: int, entries: Seq<[u8; 3]>, dither: Dither)
    requires
        width > 0,
        rows >= 0,
        pixels.len() == 3 * (width * rows),
        entries.len() > 0,
    ensures
        ({
            let r = indices_of(pixels, width, entries, dither);
            &&& r.len() == width * rows
            &&& forall|i: int| 0 <= i < r.len() ==> 0 <= #[trigger] r[i] < entries.len()
            &&& dither is Off ==> forall|i: int|
                0 <= i < r.len() ==> #[trigger] r[i] == closest(entries, pixel_at(pixels, i))
        }),
{
    lemma_quantized(pixels, width, entries, dither);
}

/// Map an image of three bytes a pixel onto a palette, one index for each pixel.
/// `width` is in pixels, and is what dithering finds neighbours by.
pub fn quantize(pixels: &[u8], width: usize, palette: &Palette, dither: Dither) -> (r: Vec<u8>)
    requires
        palette.wf(),
        dither is FloydSteinberg && palette@.len() > 0 ==> 12 * (width + 2) <= isize::MAX,
    ensures
        numbers(r@) == indices_of(pixels@, width as int, palette@, dither),
        r@.len() == pixels@.len() / 3,
        palette@.len() > 0 ==> forall|i: int| 0 <= i < r@.len() ==> #[trigger] r@[i] < palette@.len(),
{
    if palette.is_empty() || width == 0 {
        let out: Vec<u8> = vec![0; pixels.len() / 3];
        assert(numbers(out@) =~= indices_of(pixels@, width as int, palette@, dither));
        return out;
    }
    let out = match dither {
        Dither::Off => quantize_plain(pixels, palette),
        Dither::FloydSteinberg => quantize_dithered(pixels, width, palette),
    };
    proof {
        let n = numbers(out@);
        lemma_quantized(pixels@, width as int, palette@, dither);
        assert(n.len() == out@.len());
        assert forall|i: int| 0 <= i < out@.len() implies #[trigger] out@[i] < palette@.len() by {
            assert(n[i] == out@[i]);
        }
    }
    out
}

/// Where every colour is in the table nothing is missed, so that dithering looks
/// for the pixel itself everywhere.
pub proof fn lemma_exact_is_not_diffused(d: Dithering, y: int, x: int)
    requires
        y >= 0,
        0 <= x < d.width,
        forall|i: int|
            0 <= i < (y + 1) * d.width ==> d.entries.contains(#[trigger] entry_at(d.pixels, i)),
    ensures
        d.aim(y, x) == pixel_at(d.pixels, y * d.width + x),
        d.missed(d.aim(y, x)) == Rgb::zero(),
    decreases y, x,
{
    let w = d.width;
    let i = y * w + x;
    assert(0 <= i < (y + 1) * w && (y > 0 ==> y * w <= (y + 1) * w)) by (nonlinear_arith)
        requires
            i == y * w + x,
            0 <= x < w,
            y >= 0,
    ;
    assert(part(0, 7) == 0 && part(0, 3) == 0 && part(0, 5) == 0 && part(0, 1) == 0);
    if x > 0 {
        lemma_exact_is_not_diffused(d, y, x - 1);
    }
    if y > 0 {
        if x > 0 {
            lemma_exact_is_not_diffused(d, y - 1, x - 1);
        }
        lemma_exact_is_not_diffused(d, y - 1, x);
        if x + 1 < w {
            lemma_exact_is_not_diffused(d, y - 1, x + 1);
        }
    }
    d.lemma_aim(y, x);
    let e = entry_at(d.pixels, i);
    assert(d.entries.contains(e));
    let at = choose|at: int| 0 <= at < d.entries.len() && d.entries[at] == e;
    assert(d.left_over(y, x) == Rgb::zero());
    assert(d.aim(y, x) == Rgb::of(e));
    lemma_closest_exact(d.entries, at);
}

/// A pixel as a table entry.
pub open spec fn entry_at(pixels: Seq<u8>, i: int) -> [u8; 3] {
    [pixels[3 * i], pixels[3 * i + 1], pixels[3 * i + 2]]
}

/// An image whose colours are all in the table is mapped to entries that are its
/// colours, with dithering and without.
pub proof fn lemma_exact_quantization(pixels: Seq<u8>, width: int, entries: Seq<[u8; 3]>, dither: Dither, i: int)
    requires
        width > 0,
        0 <= i < (pixels.len() as int / 3 / width) * width,
        forall|j: int|
            0 <= j < pixels.len() as int / 3 ==> entries.contains(#[trigger] entry_at(pixels, j)),
    ensures
        ({
            let k = indices_of(pixels, width, entries, dither)[i];
            &&& 0 <= k < entries.len()
            &&& Rgb::of(entries[k]) == pixel_at(pixels, i)
        }),
{
    let count = pixels.len() as int / 3;
    assert((count / width) * width <= count) by (nonlinear_arith)
        requires
            width > 0,
            count >= 0,
    ;
    let e = entry_at(pixels, i);
    assert(entries.contains(e));
    let at = choose|at: int| 0 <= at < entries.len() && entries[at] == e;
    assert(Rgb::of(e) == pixel_at(pixels, i));
    lemma_closest(entries, Rgb::of(e));
    lemma_closest_exact(entries, at);
    if dither is FloydSteinberg {
        let d = Dithering { pixels, width, entries };
        let (y, x) = (i / width, i % width);
        assert(0 <= x < width && y >= 0 && i == y * width + x && (y + 1) * width <= (count / width) * width)
            by (nonlinear_arith)
            requires
                y == i / width,
                x == i % width,
                width > 0,
                0 <= i < (count / width) * width,
        ;
        lemma_exact_is_not_diffused(d, y, x);
    }
}

/// A share of an error is that many sixteenths of it, cut towards zero: it misses less
/// than one, and mirrors with the error.
pub proof fn lemma_share_is_its_sixteenths(error: int, sixteenths: int)
    requires
        0 <= sixteenths <= 16,
    ensures
        -16 < 16 * part(error, sixteenths) - sixteenths * error < 16,
        error >= 0 ==> 0 <= 16 * part(error, sixteenths) <= sixteenths * error,
        error <= 0 ==> sixteenths * error <= 16 * part(error, sixteenths) <= 0,
        part(-error, sixteenths) == -part(error, sixteenths),
{
    let e = if error >= 0 {
        error
    } else {
        -error
    };
    assert(e * sixteenths >= 0) by (nonlinear_arith)
        requires
            e >= 0,
            sixteenths >= 0,
    ;
    assert((-error) * sixteenths == -(error * sixteenths) && sixteenths * error == error * sixteenths) by (nonlinear_arith);
    if error == 0 {
        assert(0 * sixteenths == 0) by (nonlinear_arith);
    }
}

/// The four shares of an error hand on all of it but at most three, cut towards zero.
pub proof fn lemma_shares_hand_on(error: int)
    ensures
        ({
            let handed = part(error, 7) + part(error, 3) + part(error, 5) + part(error, 1);
            &&& error >= 0 ==> handed <= error <= handed + 3
            &&& error <= 0 ==> handed - 3 <= error <= handed
        }),
{
}

/// A value moved by four parts of errors, held to a byte.
proof fn lemma_moved(pixel: int, l: int, ra: int, a: int, la: int)
    ensures
        moved_by(
            clamp(pixel + (part(ra, 3) + part(a, 5) + part(la, 1) + part(l, 7)), 0, 255),
            pixel,
            l,
            ra,
            a,
            la,
        ),
{
    lemma_parts_sum(l, ra, a, la);
}

/// Four parts of errors: sixteen times their sum is near seven, three, five and one times
/// the errors.
proof fn lemma_parts_sum(l: int, ra: int, a: int, la: int)
    ensures
        -64 < 16 * (part(ra, 3) + part(a, 5) + part(la, 1) + part(l, 7)) - (7 * l + 3 * ra + 5 * a + la) < 64,
{
    lemma_share_is_its_sixteenths(l, 7);
    lemma_share_is_its_sixteenths(ra, 3);
    lemma_share_is_its_sixteenths(a, 5);
    lemma_share_is_its_sixteenths(la, 1);
}

/// What was missed at a place, nothing outside the image.
pub open spec fn error_at(d: Dithering, y: int, x: int) -> Rgb {
    if y >= 0 && 0 <= x < d.width {
        d.missed(d.aim(y, x))
    } else {
        Rgb::zero()
    }
}

/// Whether `aim` is `pixel` moved by sixteenths of four errors, as far as a byte and four
/// cut parts allow.
pub open spec fn moved_by(aim: int, pixel: int, l: int, ra: int, a: int, la: int) -> bool {
    let moved = 16 * pixel + 7 * l + 3 * ra + 5 * a + la;
    &&& 0 <= aim <= 255
    &&& -64 < 16 * aim - (if moved < 0 {
        0int
    } else if moved > 16 * 255 {
        16 * 255int
    } else {
        moved
    }) < 64
}

/// The colour looked for at a place is the pixel moved by seven sixteenths of the error to
/// its left, and by three, five and one sixteenths of those above it to the right, above
/// it, and above it to the left.
pub proof fn lemma_errors_move_the_aim(d: Dithering, y: int, x: int)
    requires
        y >= 0,
        0 <= x < d.width,
    ensures
        ({
            let (aim, pixel) = (d.aim(y, x), pixel_at(d.pixels, y * d.width + x));
            let (l, ra) = (error_at(d, y, x - 1), error_at(d, y - 1, x + 1));
            let (a, la) = (error_at(d, y - 1, x), error_at(d, y - 1, x - 1));
            &&& moved_by(aim.r, pixel.r, l.r, ra.r, a.r, la.r)
            &&& moved_by(aim.g, pixel.g, l.g, ra.g, a.g, la.g)
            &&& moved_by(aim.b, pixel.b, l.b, ra.b, a.b, la.b)
            &&& l == Rgb::zero() && ra == Rgb::zero() && a == Rgb::zero() && la == Rgb::zero() ==> aim == pixel
        }),
{
    d.lemma_aim(y, x);
    assert(part(0, 7) == 0 && part(0, 3) == 0 && part(0, 5) == 0 && part(0, 1) == 0);
    let (l, ra) = (error_at(d, y, x - 1), error_at(d, y - 1, x + 1));
    let (a, la) = (error_at(d, y - 1, x), error_at(d, y - 1, x - 1));
    let pixel = pixel_at(d.pixels, y * d.width + x);
    lemma_moved(pixel.r, l.r, ra.r, a.r, la.r);
    lemma_moved(pixel.g, l.g, ra.g, a.g, la.g);
    lemma_moved(pixel.b, l.b, ra.b, a.b, la.b);
    let sum = ra.share(3).plus(a.share(5)).plus(la.share(1)).plus(l.share(7));
    assert(d.left_over(y, x).plus(d.pushed(y, x)) == sum);
    assert(d.aim(y, x) == pixel.plus(sum).clamped());
}

/// Dithering looks back only: what is chosen up to a place does not depend on the pixels
/// behind it.
pub proof fn lemma_dithering_looks_back(d: Dithering, pixels: Seq<u8>, y: int, x: int)
    requires
        y >= 0,
        0 <= x < d.width,
        forall|k: int| 0 <= k < 3 * (y * d.width + x + 1) ==> #[trigger] d.pixels[k] == pixels[k],
    ensures
        d.aim(y, x) == (Dithering { pixels, width: d.width, entries: d.entries }).aim(y, x),
        d.index(y, x) == (Dithering { pixels, width: d.width, entries: d.entries }).index(y, x),
    decreases y, x,
{
    let e = Dithering { pixels, width: d.width, entries: d.entries };
    let w = d.width;
    assert(y * w + x >= 0 && (y > 0 ==> (y - 1) * w + w == y * w)) by (nonlinear_arith)
        requires
            y >= 0,
            0 <= x < w,
    ;
    if x > 0 {
        lemma_dithering_looks_back(d, pixels, y, x - 1);
    }
    if y > 0 {
        lemma_dithering_looks_back(d, pixels, y - 1, x);
        if x > 0 {
            lemma_dithering_looks_back(d, pixels, y - 1, x - 1);
        }
        if x + 1 < w {
            lemma_dithering_looks_back(d, pixels, y - 1, x + 1);
        }
    }
    d.lemma_aim(y, x);
    e.lemma_aim(y, x);
    let i = y * w + x;
    assert(pixel_at(d.pixels, i) == pixel_at(pixels, i));
    assert(d.left_over(y, x) == e.left_over(y, x));
}

/// The entry chosen for a colour is the nearest in space, red, green and blue counting
/// alike; of equally near ones it is the first.
pub proof fn lemma_closest_in_space(entries: Seq<[u8; 3]>, colour: Rgb, j: int)
    requires
        0 <= j < entries.len(),
    ensures
        ({
            let k = closest(entries, colour);
            let (kr, kg, kb) = (entries[k]@[0] - colour.r, entries[k]@[1] - colour.g, entries[k]@[2] - colour.b);
            let (jr, jg, jb) = (entries[j]@[0] - colour.r, entries[j]@[1] - colour.g, entries[j]@[2] - colour.b);
            &&& 0 <= k < entries.len()
            &&& kr * kr + kg * kg + kb * kb <= jr * jr + jg * jg + jb * jb
            &&& j < k ==> kr * kr + kg * kg + kb * kb < jr * jr + jg * jg + jb * jb
        }),
{
    lemma_closest(entries, colour);
    let k = closest(entries, colour);
    lemma_distance_in_space(colour, entries[k]);
    lemma_distance_in_space(colour, entries[j]);
}

/// The squared distance of a colour and an entry, by its three sides.
proof fn lemma_distance_in_space(colour: Rgb, entry: [u8; 3])
    ensures
        ({
            let (x, y, z) = (entry@[0] - colour.r, entry@[1] - colour.g, entry@[2] - colour.b);
            colour.distance(Rgb::of(entry)) == x * x + y * y + z * z
        }),
{
    let (x, y, z) = (entry@[0] - colour.r, entry@[1] - colour.g, entry@[2] - colour.b);
    assert((-x) * (-x) == x * x && (-y) * (-y) == y * y && (-z) * (-z) == z * z) by (nonlinear_arith);
}

/// An index has as many bits as the table needs and no more, at least one.
pub proof fn lemma_bits_suffice(len: int)
    requires
        0 <= len <= 256,
    ensures
        1 <= bits_for(len) <= 8,
        len <= p2(bits_for(len)),
        bits_for(len) > 1 ==> p2(bits_for(len) - 1) < len,
{
    lemma_p2_values();
}

/// The indices of an image stand row by row: that of a place is the index of the entry that is
/// nearest to what is looked for there, the pixel itself where nothing is diffused, as nothing
/// is before the first place.
pub proof fn lemma_indices_by_place(pixels: Seq<u8>, width: int, rows: int, entries: Seq<[u8; 3]>, y: int, x: int)
    requires
        0 <= x < width,
        0 <= y < rows,
        pixels.len() == 3 * (width * rows),
        entries.len() > 0,
    ensures
        ({
            let d = Dithering { pixels, width, entries };
            let at = y * width + x;
            &&& indices_of(pixels, width, entries, Dither::Off)[at] == closest(entries, pixel_at(pixels, at))
            &&& indices_of(pixels, width, entries, Dither::FloydSteinberg)[at] == closest(entries, d.aim(y, x))
            &&& x == 0 && y == 0 ==> d.aim(y, x) == pixel_at(pixels, 0)
        }),
{
    let at = y * width + x;
    lemma_place(y, x, width);
    assert(0 <= at < width * rows && at / width == y && at % width == x && (width * rows) / width == rows) by (nonlinear_arith)
        requires
            at == y * width + x,
            0 <= x < width,
            0 <= y < rows,
    ;
    assert(rows * width == width * rows) by (nonlinear_arith);
    assert(pixels.len() / 3 == width * rows);
    if x == 0 && y == 0 {
        lemma_errors_move_the_aim(Dithering { pixels, width, entries }, 0, 0);
        assert(0 * width == 0);
    }
}

} // verus!
