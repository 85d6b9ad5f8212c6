//! Sample planes for reconstruction.
//!
//! A `Plane` stores one component's samples in a row-major buffer. A read that
//! strays outside the plane can be answered by the nearest edge sample, which is
//! what intra prediction wants when a neighbour is off the frame.
use super::transform::lemma_raster;
use crate::math::{clamp, p2};
use vstd::prelude::*;

verus! {

/// One component's reconstructed samples.
#[derive(Debug, Clone)]
pub struct Plane {
    data: Vec<u16>,
    width: usize,
    height: usize,
}

/// What a plane holds.
#[verifier::ext_equal]
pub struct Samples {
    /// The samples, row by row.
    pub data: Seq<u16>,
    /// The width.
    pub width: int,
    /// The height.
    pub height: int,
}

/// Whether every value is below a limit.
pub open spec fn under(s: Seq<u16>, limit: int) -> bool {
    forall|i: int| 0 <= i < s.len() ==> #[trigger] s[i] < limit
}

impl Samples {
    /// Whether every sample is one of `depth` bits.
    pub open spec fn fits(self, depth: int) -> bool {
        under(self.data, p2(depth))
    }

    /// There is one sample for each place.
    pub open spec fn wf(self) -> bool {
        &&& self.width >= 0
        &&& self.height >= 0
        &&& self.data.len() == self.width * self.height
    }

    /// Whether a place is inside.
    pub open spec fn has(self, x: int, y: int) -> bool {
        0 <= x < self.width && 0 <= y < self.height
    }

    /// The sample at a place inside.
    pub open spec fn sample(self, x: int, y: int) -> u16 {
        self.data[y * self.width + x]
    }

    /// The plane with another sample at a place; unchanged for a place outside.
    pub open spec fn with(self, x: int, y: int, value: u16) -> Samples {
        if self.has(x, y) {
            Samples { data: self.data.update(y * self.width + x, value), ..self }
        } else {
            self
        }
    }

    /// The sample at the nearest place inside; 0 for an empty plane.
    pub open spec fn nearest(self, x: int, y: int) -> u16 {
        if self.width == 0 || self.height == 0 {
            0
        } else {
            self.sample(clamp(x, 0, self.width - 1), clamp(y, 0, self.height - 1))
        }
    }
}

/// Setting a sample changes that place and no other.
pub proof fn lemma_with(p: Samples, x: int, y: int, value: u16, u: int, v: int)
    requires
        p.wf(),
        p.has(u, v),
    ensures
        p.with(x, y, value).wf(),
        p.with(x, y, value).sample(u, v) == if u == x && v == y {
            value
        } else {
            p.sample(u, v)
        },
{
    lemma_raster(v, u, p.width, p.height);
    if p.has(x, y) {
        lemma_raster(y, x, p.width, p.height);
    }
}

impl View for Plane {
    type V = Samples;

    closed spec fn view(&self) -> Samples {
        Samples { data: self.data@, width: self.width as int, height: self.height as int }
    }
}

impl Plane {
    /// A zero-filled plane.
    pub fn new(width: usize, height: usize) -> (r: Plane)
        requires
            width * height <= usize::MAX,
        ensures
            r@.wf(),
            r@.width == width,
            r@.height == height,
            forall|i: int| 0 <= i < r@.data.len() ==> #[trigger] r@.data[i] == 0,
    {
        proof {
            assert(0 <= width * height) by (nonlinear_arith)
                requires
                    0 <= width,
                    0 <= height,
            ;
        }
        let data: Vec<u16> = vec![0; width * height];
        Plane { data, width, height }
    }

    /// The width in samples.
    pub fn width(&self) -> (r: usize)
        ensures
            r == self@.width,
    {
        self.width
    }

    /// The height in samples.
    pub fn height(&self) -> (r: usize)
        ensures
            r == self@.height,
    {
        self.height
    }

    /// The sample at `(x, y)`, if it is inside.
    pub fn get(&self, x: usize, y: usize) -> (r: Option<u16>)
        requires
            self@.wf(),
        ensures
            r == if self@.has(x as int, y as int) {
                Some(self@.sample(x as int, y as int))
            } else {
                None
            },
    {
        if x >= self.width || y >= self.height {
            return None;
        }
        proof {
            lemma_raster(y as int, x as int, self@.width, self@.height);
            assert(y * self.width >= 0) by (nonlinear_arith)
                requires
                    y >= 0,
                    self.width >= 0,
            ;
            assert(self.data@.len() == self.data.len());
        }
        Some(self.data[y * self.width + x])
    }

    /// Set the sample at `(x, y)`; a write outside is dropped.
    pub fn set(&mut self, x: usize, y: usize, value: u16)
        requires
            old(self)@.wf(),
        ensures
            final(self)@ == old(self)@.with(x as int, y as int, value),
            final(self)@.wf(),
    {
        if x < self.width && y < self.height {
            proof {
                lemma_raster(y as int, x as int, self@.width, self@.height);
                assert(y * self.width >= 0) by (nonlinear_arith)
                    requires
                        y >= 0,
                        self.width >= 0,
                ;
                assert(self.data@.len() == self.data.len());
            }
            let at = y * self.width + x;
            self.data[at] = value;
        }
    }

    /// Row `y`, if it is inside.
    pub fn row(&self, y: usize) -> (r: Option<&[u16]>)
        requires
            self@.wf(),
        ensures
            r is Some <==> y < self@.height,
            r is Some ==> r->0@ == self@.data.subrange(y * self@.width, y * self@.width + self@.width),
    {
        if y >= self.height {
            return None;
        }
        let w = self.width;
        proof {
            assert(0 <= y * w && y * w + w <= w * self.height) by (nonlinear_arith)
                requires
                    0 <= y < self.height,
                    0 <= w,
            ;
            assert(self.data@.len() == self.data.len());
        }
        Some(vstd::slice::slice_subrange(self.data.as_slice(), y * w, y * w + w))
    }

    /// The sample at the place inside nearest to `(x, y)`; 0 for an empty plane.
    pub fn sample_clamped(&self, x: isize, y: isize) -> (r: u16)
        requires
            self@.wf(),
            self@.width <= isize::MAX,
            self@.height <= isize::MAX,
        ensures
            r == self@.nearest(x as int, y as int),
    {
        if self.width == 0 || self.height == 0 {
            return 0;
        }
        let cx: usize = if x < 0 {
            0
        } else if (x as usize) < self.width {
            x as usize
        } else {
            self.width - 1
        };
        let cy: usize = if y < 0 {
            0
        } else if (y as usize) < self.height {
            y as usize
        } else {
            self.height - 1
        };
        proof {
            lemma_raster(cy as int, cx as int, self@.width, self@.height);
            assert(cy * self.width >= 0) by (nonlinear_arith)
                requires
                    cy >= 0,
                    self.width >= 0,
            ;
            assert(self.data@.len() == self.data.len());
        }
        self.data[cy * self.width + cx]
    }

    /// The samples, row by row.
    pub fn samples(&self) -> (r: &[u16])
        ensures
            r@ == self@.data,
    {
        self.data.as_slice()
    }
}

} // verus!
