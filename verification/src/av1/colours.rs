//! Palettes of screen content: their colours, and the map of which sample has
//! which.
use super::bits::{floor_log2, log2};
use super::block::Setup;
use super::coeff::{next, Coded};
use super::modes::{
    below, number, Stream, ROW_COLOUR_UV, ROW_COLOUR_Y, ROW_PALETTE_UV, ROW_PALETTE_UV_SIZE, ROW_PALETTE_Y,
    ROW_PALETTE_Y_SIZE,
};
use super::palette::{absorbed, color_context, merged, palette_cache, ranking, score_context};
use super::plane::under;
use super::units::Unit;
use crate::error::Outcome;
use crate::math::{clamp, lemma_p2_mono, lemma_p2_pos, lemma_p2_values, max, min, p2, pow2_i32};
use vstd::prelude::*;
use vstd::relations::{sorted_by, total_ordering};
use vstd::seq_lib::{group_to_multiset_ensures, lemma_sorted_unique, to_multiset_insert};

verus! {

/// Colours that are being read.
#[verifier::ext_equal]
pub struct Colouring {
    /// The stream.
    pub st: Coded,
    /// Eight places for colours.
    pub colours: Seq<u16>,
    /// How many have been read.
    pub count: int,
}

/// No colours.
pub open spec fn no_colours() -> Seq<u16> {
    Seq::new(8, |i: int| 0u16)
}

/// One colour more.
pub open spec fn with_colour(k: Colouring, st: Coded, colour: int) -> Colouring {
    Colouring { st, colours: k.colours.update(k.count, colour as u16), count: k.count + 1 }
}

/// The colours that are taken from a cache, from place `i` of it on, a bit for each.
pub open spec fn from_cache(k: Colouring, cache: Seq<u16>, i: int, size: int) -> Colouring
    decreases cache.len() - i,
{
    if i >= cache.len() || k.count >= size {
        k
    } else {
        let t = number(k.st, 1);
        from_cache(
            if t.0 != 0 {
                with_colour(k, t.1, cache[i] as int)
            } else {
                Colouring { st: t.1, ..k }
            },
            cache,
            i + 1,
            size,
        )
    }
}

/// `CeilLog2`.
pub open spec fn ceil_log2(x: int) -> int {
    if x < 2 {
        0
    } else {
        log2(x - 1) + 1
    }
}

/// The bits of the next difference: no more than the colours that are left need.
pub open spec fn narrower(bits: int, depth: int, colour: int, least: int) -> int {
    min(bits, ceil_log2(max(p2(depth) - colour - least, 0)))
}

/// The colours that are coded by their difference from the one before. A luma
/// difference is at least one.
pub open spec fn by_difference(k: Colouring, size: int, depth: int, bits: int, least: int) -> Colouring
    decreases size - k.count,
{
    if k.count >= size {
        k
    } else {
        let t = number(k.st, bits);
        let colour = clamp(k.colours[k.count - 1] + t.0 + least, 0, p2(depth) - 1);
        by_difference(with_colour(k, t.1, colour), size, depth, narrower(bits, depth, colour, least), least)
    }
}

/// Ascending order.
pub open spec fn ascends() -> spec_fn(u16, u16) -> bool {
    |a: u16, b: u16| a <= b
}

/// A palette's colours, and the stream after them: some from the cache, then one by
/// itself, then the others by their differences; all put in order.
pub open spec fn palette_colours(st: Coded, size: int, cache: Seq<u16>, depth: int, luma: bool) -> (Seq<u16>, Coded) {
    let least: int = if luma {
        1
    } else {
        0
    };
    let a = from_cache(Colouring { st, colours: no_colours(), count: 0 }, cache, 0, size);
    let b = if a.count < size {
        let t = number(a.st, depth);
        with_colour(a, t.1, t.0)
    } else {
        a
    };
    let d = if b.count < size {
        let t = number(b.st, 2);
        by_difference(Colouring { st: t.1, ..b }, size, depth, depth - 3 + t.0, least)
    } else {
        b
    };
    (d.colours.take(size).sort_by(ascends()) + d.colours.skip(size), d.st)
}

/// `CeilLog2`.
fn ceil_log2_of(x: u32) -> (r: u32)
    ensures
        r == ceil_log2(x as int),
        r <= 32,
{
    if x < 2 {
        0
    } else {
        floor_log2(x - 1) + 1
    }
}

/// Sort the first colours.
fn sort_colours(colours: &[u16; 8], size: usize) -> (r: [u16; 8])
    requires
        size <= 8,
    ensures
        r@ == colours@.take(size as int).sort_by(ascends()) + colours@.skip(size as int),
        forall|limit: int| under(colours@, limit) ==> #[trigger] under(r@, limit),
{
    let mut sorted: Vec<u16> = Vec::new();
    let mut i: usize = 0;
    assert(colours@.take(0) =~= Seq::<u16>::empty());
    while i < size
        invariant
            i <= size <= 8,
            sorted@.len() == i,
            sorted_by(sorted@, ascends()),
            sorted@.to_multiset() == colours@.take(i as int).to_multiset(),
            forall|limit: int| under(colours@, limit) ==> #[trigger] under(sorted@, limit),
        decreases size - i,
    {
        let v = colours[i];
        let mut at: usize = 0;
        while at < sorted.len() && sorted[at] <= v
            invariant
                at <= sorted@.len(),
                sorted_by(sorted@, ascends()),
                forall|k: int| 0 <= k < at ==> #[trigger] sorted@[k] <= v,
            decreases sorted@.len() - at,
        {
            at = at + 1;
        }
        let ghost was = sorted@;
        sorted.insert(at, v);
        proof {
            broadcast use group_to_multiset_ensures;

            to_multiset_insert(was, at as int, v);
            assert(colours@.take(i + 1) =~= colours@.take(i as int).push(v));
            assert forall|limit: int| under(colours@, limit) implies #[trigger] under(sorted@, limit) by {
                assert(under(was, limit));
                assert(colours@[i as int] < limit);
            }
            assert forall|p: int, q: int| 0 <= p < q < sorted@.len() implies #[trigger] ascends()(sorted@[p], sorted@[q]) by {
                if p < at && q < at {
                    assert(ascends()(was[p], was[q]));
                } else if p < at && q > at {
                    assert(ascends()(was[p], was[q - 1]));
                } else if p == at {
                    assert(was[q - 1] >= was[at as int]) by {
                        if q - 1 > at {
                            assert(ascends()(was[at as int], was[q - 1]));
                        }
                    }
                } else if p > at {
                    assert(ascends()(was[p - 1], was[q - 1]));
                }
            }
        }
        i = i + 1;
    }
    proof {
        let front = colours@.take(size as int);
        assert(total_ordering(ascends()));
        front.lemma_sort_by_ensures(ascends());
        lemma_sorted_unique(sorted@, front.sort_by(ascends()), ascends());
    }
    let mut out = *colours;
    let mut j: usize = 0;
    while j < size
        invariant
            j <= size <= 8,
            sorted@.len() == size,
            forall|k: int| 0 <= k < j ==> #[trigger] out@[k] == sorted@[k],
            forall|k: int| j <= k < 8 ==> #[trigger] out@[k] == colours@[k],
        decreases size - j,
    {
        out[j] = sorted[j];
        j = j + 1;
    }
    assert(out@ =~= sorted@ + colours@.skip(size as int));
    assert forall|limit: int| under(colours@, limit) implies #[trigger] under(out@, limit) by {
        assert(under(sorted@, limit));
    }
    out
}

/// Read a palette's colours.
fn read_palette_colors(stream: &mut Stream<'_>, size: usize, cache: &Vec<u16>, bit_depth: u8, luma: bool) -> (r: Outcome<
    [u16; 8],
>)
    requires
        old(stream).wf(),
        2 <= size <= 8,
        8 <= bit_depth <= 12,
        under(cache@, p2(bit_depth as int)),
    ensures
        r is Ok,
        under(r->Ok_0@, p2(bit_depth as int)),
        (r->Ok_0@, final(stream)@) == palette_colours(
            old(stream)@,
            size as int,
            cache@,
            bit_depth as int,
            luma,
        ),
        final(stream).wf(),
{
    let depth = bit_depth as u32;
    let ghost start = Colouring { st: stream@, colours: no_colours(), count: 0 };
    let mut colours: [u16; 8] = [0; 8];
    let mut count: usize = 0;
    let mut i: usize = 0;
    assert(colours@ =~= no_colours());
    proof {
        lemma_p2_pos(depth as int);
    }
    while i < cache.len() && count < size
        invariant
            i <= cache@.len(),
            under(cache@, p2(depth as int)),
            under(colours@, p2(depth as int)),
            count <= size <= 8,
            stream.wf(),
            from_cache(start, cache@, 0, size as int) == from_cache(
                (Colouring { st: stream@, colours: colours@, count: count as int }),
                cache@,
                i as int,
                size as int,
            ),
        decreases cache@.len() - i,
    {
        let taken = stream.number(1)?;
        if taken != 0 {
            colours[count] = cache[i];
            count = count + 1;
        }
        i = i + 1;
    }
    let ghost a = Colouring { st: stream@, colours: colours@, count: count as int };
    assert(from_cache(start, cache@, 0, size as int) == a);
    proof {
        lemma_p2_values();
        lemma_p2_mono(depth as int, 16);
        lemma_p2_pos(depth as int);
    }
    if count < size {
        let colour = stream.number(depth)?;
        colours[count] = colour as u16;
        count = count + 1;
    }
    let ghost b = Colouring { st: stream@, colours: colours@, count: count as int };
    if count < size {
        let least: u32 = if luma {
            1
        } else {
            0
        };
        let top = pow2_i32(depth);
        let extra = stream.number(2)?;
        let mut bits = depth - 3 + extra;
        let ghost first = Colouring { st: stream@, colours: colours@, count: count as int };
        let ghost first_bits = bits as int;
        while count < size
            invariant
                1 <= count <= size <= 8,
                8 <= depth <= 12,
                bits <= depth,
                least == (if luma {
                    1int
                } else {
                    0
                }),
                top == p2(depth as int),
                256 <= top <= 65536,
                under(colours@, p2(depth as int)),
                stream.wf(),
                by_difference(first, size as int, depth as int, first_bits, least as int) == by_difference(
                    (Colouring { st: stream@, colours: colours@, count: count as int }),
                    size as int,
                    depth as int,
                    bits as int,
                    least as int,
                ),
            decreases size - count,
        {
            proof {
                lemma_p2_mono(bits as int, 12);
                lemma_p2_values();
            }
            let delta = stream.number(bits)? + least;
            let wanted = colours[count - 1] as i32 + delta as i32;
            let colour: i32 = if wanted > top - 1 {
                top - 1
            } else {
                wanted
            };
            colours[count] = colour as u16;
            let range = top - colour - least as i32;
            let needed = ceil_log2_of(
                if range > 0 {
                    range as u32
                } else {
                    0
                },
            );
            if needed < bits {
                bits = needed;
            }
            count = count + 1;
        }
    }
    Ok(sort_colours(&colours, size))
}

/// The second chroma colours that are coded by their difference from the one
/// before, wrapped around.
pub open spec fn by_wrapping(k: Colouring, size: int, depth: int, bits: int) -> Colouring
    decreases size - k.count,
{
    if k.count >= size {
        k
    } else {
        let t = number(k.st, bits);
        let (negative, st) = if t.0 != 0 {
            let u = number(t.1, 1);
            (u.0 != 0, u.1)
        } else {
            (false, t.1)
        };
        let moved = k.colours[k.count - 1] + (if negative {
            -t.0
        } else {
            t.0
        });
        let up = if moved < 0 {
            moved + p2(depth)
        } else {
            moved
        };
        let down = if up >= p2(depth) {
            up - p2(depth)
        } else {
            up
        };
        by_wrapping(with_colour(k, st, clamp(down, 0, p2(depth) - 1)), size, depth, bits)
    }
}

/// Colours that are coded by themselves.
pub open spec fn by_themselves(k: Colouring, size: int, depth: int) -> Colouring
    decreases size - k.count,
{
    if k.count >= size {
        k
    } else {
        let t = number(k.st, depth);
        by_themselves(with_colour(k, t.1, t.0), size, depth)
    }
}

/// The second chroma palette's colours, and the stream after them: by differences
/// or by themselves.
pub open spec fn second_colours(st: Coded, size: int, depth: int) -> (Seq<u16>, Coded) {
    let how = number(st, 1);
    let k = Colouring { st: how.1, colours: no_colours(), count: 0 };
    let d = if how.0 != 0 {
        let width = number(how.1, 2);
        let t = number(width.1, depth);
        by_wrapping(with_colour(k, t.1, t.0), size, depth, depth - 4 + width.0)
    } else {
        by_themselves(k, size, depth)
    };
    (d.colours, d.st)
}

/// Read the second chroma palette's colours.
fn read_palette_colors_v(stream: &mut Stream<'_>, size: usize, bit_depth: u8) -> (r: Outcome<[u16; 8]>)
    requires
        old(stream).wf(),
        2 <= size <= 8,
        8 <= bit_depth <= 12,
    ensures
        r is Ok,
        under(r->Ok_0@, p2(bit_depth as int)),
        (r->Ok_0@, final(stream)@) == second_colours(old(stream)@, size as int, bit_depth as int),
        final(stream).wf(),
{
    let depth = bit_depth as u32;
    let mut colours: [u16; 8] = [0; 8];
    assert(colours@ =~= no_colours());
    proof {
        lemma_p2_values();
        lemma_p2_mono(depth as int, 16);
        lemma_p2_mono(8, depth as int);
    }
    let top = pow2_i32(depth);
    let how = stream.number(1)?;
    if how != 0 {
        let extra = stream.number(2)?;
        let bits = depth - 4 + extra;
        let base = stream.number(depth)?;
        colours[0] = base as u16;
        let mut count: usize = 1;
        let ghost first = Colouring { st: stream@, colours: colours@, count: 1 };
        while count < size
            invariant
                1 <= count <= size <= 8,
                8 <= depth <= 12,
                bits <= depth,
                top == p2(depth as int),
                256 <= top <= 65536,
                under(colours@, p2(depth as int)),
                stream.wf(),
                by_wrapping(first, size as int, depth as int, bits as int) == by_wrapping(
                    (Colouring { st: stream@, colours: colours@, count: count as int }),
                    size as int,
                    depth as int,
                    bits as int,
                ),
            decreases size - count,
        {
            proof {
                lemma_p2_mono(bits as int, 12);
                lemma_p2_values();
            }
            let mut delta = stream.number(bits)? as i32;
            if delta != 0 {
                let negative = stream.number(1)?;
                if negative != 0 {
                    delta = -delta;
                }
            }
            let mut value = colours[count - 1] as i32 + delta;
            if value < 0 {
                value = value + top;
            }
            if value >= top {
                value = value - top;
            }
            let colour = if value < 0 {
                0
            } else if value > top - 1 {
                top - 1
            } else {
                value
            };
            colours[count] = colour as u16;
            count = count + 1;
        }
    } else {
        let mut count: usize = 0;
        let ghost first = Colouring { st: stream@, colours: colours@, count: 0 };
        while count < size
            invariant
                count <= size <= 8,
                8 <= depth <= 12,
                top == p2(depth as int),
                256 <= top <= 65536,
                under(colours@, p2(depth as int)),
                stream.wf(),
                by_themselves(first, size as int, depth as int) == by_themselves(
                    (Colouring { st: stream@, colours: colours@, count: count as int }),
                    size as int,
                    depth as int,
                ),
            decreases size - count,
        {
            let colour = stream.number(depth)?;
            colours[count] = colour as u16;
            count = count + 1;
        }
    }
    Ok(colours)
}

/// The palettes of a block; a size of zero where there is none.
#[derive(Debug, Clone, Copy)]
pub struct Palettes {
    /// The size of the luma palette.
    pub size_y: usize,
    /// The size of the chroma palettes.
    pub size_uv: usize,
    /// The luma colours.
    pub colours_y: [u16; 8],
    /// The first chroma colours.
    pub colours_u: [u16; 8],
    /// The second chroma colours.
    pub colours_v: [u16; 8],
}

/// What the palettes of a block are.
#[verifier::ext_equal]
pub struct PalettesAt {
    /// The size of the luma palette.
    pub size_y: int,
    /// The size of the chroma palettes.
    pub size_uv: int,
    /// The luma colours.
    pub colours_y: Seq<u16>,
    /// The first chroma colours.
    pub colours_u: Seq<u16>,
    /// The second chroma colours.
    pub colours_v: Seq<u16>,
}

impl PalettesAt {
    /// Whether every colour is one of `depth` bits.
    pub open spec fn fits(self, depth: int) -> bool {
        &&& under(self.colours_y, p2(depth))
        &&& under(self.colours_u, p2(depth))
        &&& under(self.colours_v, p2(depth))
    }
}

impl View for Palettes {
    type V = PalettesAt;

    open spec fn view(&self) -> PalettesAt {
        PalettesAt {
            size_y: self.size_y as int,
            size_uv: self.size_uv as int,
            colours_y: self.colours_y@,
            colours_u: self.colours_u@,
            colours_v: self.colours_v@,
        }
    }
}

/// No palettes.
pub open spec fn no_palettes() -> PalettesAt {
    PalettesAt {
        size_y: 0,
        size_uv: 0,
        colours_y: no_colours(),
        colours_u: no_colours(),
        colours_v: no_colours(),
    }
}

/// The palette of a neighbour.
pub open spec fn palette_of(u: Unit, chroma: bool) -> Seq<u16> {
    if chroma {
        u.colours_uv@.take(u.size_uv as int)
    } else {
        u.colours_y@.take(u.size_y as int)
    }
}

/// The colours that neighbours suggest: those of the unit to the left, and of the
/// unit above unless it is in another row of superblocks.
pub open spec fn suggested(s: Setup, units: Seq<Unit>, r: int, c: int, chroma: bool) -> Seq<u16> {
    merged(
        Seq::empty(),
        if r > 0 && (4 * r) % 64 != 0 {
            palette_of(s.unit(units, r - 1, c), chroma)
        } else {
            Seq::empty()
        },
        if c > 0 {
            palette_of(s.unit(units, r, c - 1), chroma)
        } else {
            Seq::empty()
        },
    )
}

/// Whether the palettes of a unit are no longer than they may be, and of colours of
/// `depth` bits.
pub open spec fn unit_fits(u: Unit, depth: int) -> bool {
    &&& u.size_y <= 8
    &&& u.size_uv <= 8
    &&& under(u.colours_y@, p2(depth))
    &&& under(u.colours_uv@, p2(depth))
}

/// Whether the palettes of all units fit.
pub open spec fn palettes_fit(units: Seq<Unit>, depth: int) -> bool {
    forall|k: int| 0 <= k < units.len() ==> unit_fits(#[trigger] units[k], depth)
}

/// Merged colours are colours that were merged.
proof fn lemma_merged_under(cache: Seq<u16>, above: Seq<u16>, left: Seq<u16>, limit: int)
    requires
        under(cache, limit),
        under(above, limit),
        under(left, limit),
    ensures
        under(merged(cache, above, left), limit),
    decreases above.len() + left.len(),
{
    if above.len() > 0 || left.len() > 0 {
        if left.len() == 0 {
            lemma_merged_under(absorbed(cache, above[0]), above.skip(1), left, limit);
        } else if above.len() == 0 {
            lemma_merged_under(absorbed(cache, left[0]), above, left.skip(1), limit);
        } else if left[0] < above[0] {
            lemma_merged_under(absorbed(cache, left[0]), above, left.skip(1), limit);
        } else if left[0] == above[0] {
            lemma_merged_under(absorbed(cache, above[0]), above.skip(1), left.skip(1), limit);
        } else {
            lemma_merged_under(absorbed(cache, above[0]), above.skip(1), left, limit);
        }
    }
}

/// The first colours of a palette.
fn first_colours(colours: &[u16; 8], n: u8) -> (r: Vec<u16>)
    requires
        n <= 8,
    ensures
        r@ == colours@.take(n as int),
{
    let mut out: Vec<u16> = Vec::new();
    let mut i: usize = 0;
    while i < n as usize
        invariant
            i <= n <= 8,
            out@ == colours@.take(i as int),
        decreases n - i,
    {
        out.push(colours[i]);
        assert(colours@.take(i + 1) =~= colours@.take(i as int).push(colours@[i as int]));
        i = i + 1;
    }
    out
}

/// The palette of a neighbour.
fn neighbour_palette(u: &Unit, chroma: bool) -> (r: Vec<u16>)
    requires
        u.size_y <= 8,
        u.size_uv <= 8,
    ensures
        r@ == palette_of(*u, chroma),
        forall|depth: int| unit_fits(*u, depth) ==> #[trigger] under(r@, p2(depth)),
{
    if chroma {
        first_colours(&u.colours_uv, u.size_uv)
    } else {
        first_colours(&u.colours_y, u.size_y)
    }
}

/// A unit's palettes fit where all do.
proof fn lemma_unit_fits(s: Setup, units: Seq<Unit>, r: int, c: int)
    requires
        s.fits(units),
        palettes_fit(units, s.bit_depth as int),
        s.has(r, c),
    ensures
        unit_fits(s.unit(units, r, c), s.bit_depth as int),
{
    super::units::lemma_grid(s.mi_cols as int, s.mi_rows as int, r, c);
}

/// The colours that neighbours suggest.
fn palette_cache_for(s: &Setup, units: &Vec<Unit>, r: usize, c: usize, chroma: bool) -> (res: Vec<u16>)
    requires
        s.wf(),
        s.fits(units@),
        palettes_fit(units@, s.bit_depth as int),
        s.has(r as int, c as int),
    ensures
        res@ == suggested(*s, units@, r as int, c as int, chroma),
        under(res@, p2(s.bit_depth as int)),
{
    let above = if r > 0 && (4 * r) % 64 != 0 {
        proof {
            lemma_unit_fits(*s, units@, r - 1, c as int);
        }
        let u = s.unit_at(units, r - 1, c);
        neighbour_palette(&u, chroma)
    } else {
        Vec::new()
    };
    let left = if c > 0 {
        proof {
            lemma_unit_fits(*s, units@, r as int, c - 1);
        }
        let u = s.unit_at(units, r, c - 1);
        neighbour_palette(&u, chroma)
    } else {
        Vec::new()
    };
    proof {
        lemma_merged_under(Seq::empty(), above@, left@, p2(s.bit_depth as int));
    }
    palette_cache(above.as_slice(), left.as_slice())
}

/// The luma palette of a block of which `y_mode` is zero: its size and colours, and
/// the stream after them.
pub open spec fn luma_palette(s: Setup, units: Seq<Unit>, st: Coded, r: int, c: int, size_ctx: int) -> (
    int,
    Seq<u16>,
    Coded,
) {
    let above: int = if r > 0 && s.unit(units, r - 1, c).size_y > 0 {
        1
    } else {
        0
    };
    let left: int = if c > 0 && s.unit(units, r, c - 1).size_y > 0 {
        1
    } else {
        0
    };
    let used = next(st, false, ROW_PALETTE_Y + 3 * size_ctx + above + left);
    if used.0 != 0 {
        let size = next(used.1, false, ROW_PALETTE_Y_SIZE + size_ctx);
        let k = palette_colours(size.1, size.0 + 2, suggested(s, units, r, c, false), s.bit_depth as int, true);
        (size.0 + 2, k.0, k.1)
    } else {
        (0, no_colours(), used.1)
    }
}

/// The chroma palettes of a block of which the chroma mode is zero: their size and
/// colours, and the stream after them.
pub open spec fn chroma_palettes(
    s: Setup,
    units: Seq<Unit>,
    st: Coded,
    r: int,
    c: int,
    size_ctx: int,
    size_y: int,
) -> (int, Seq<u16>, Seq<u16>, Coded) {
    let used = next(
        st,
        false,
        if size_y > 0 {
            ROW_PALETTE_UV + 1
        } else {
            ROW_PALETTE_UV as int
        },
    );
    if used.0 != 0 {
        let size = next(used.1, false, ROW_PALETTE_UV_SIZE + size_ctx);
        let u = palette_colours(size.1, size.0 + 2, suggested(s, units, r, c, true), s.bit_depth as int, false);
        let v = second_colours(u.1, size.0 + 2, s.bit_depth as int);
        (size.0 + 2, u.0, v.0, v.1)
    } else {
        (0, no_colours(), no_colours(), used.1)
    }
}

/// The palettes of a block, and the stream after them.
pub open spec fn palettes(
    s: Setup,
    units: Seq<Unit>,
    st: Coded,
    r: int,
    c: int,
    bw4: int,
    bh4: int,
    y_mode: int,
    uv_mode: int,
) -> (PalettesAt, Coded) {
    let size_ctx = max(log2(bw4) + log2(bh4) - 2, 0);
    let y = if y_mode == 0 {
        luma_palette(s, units, st, r, c, size_ctx)
    } else {
        (0, no_colours(), st)
    };
    let uv = if s.num_planes > 1 && uv_mode == 0 {
        chroma_palettes(s, units, y.2, r, c, size_ctx, y.0)
    } else {
        (0, no_colours(), no_colours(), y.2)
    };
    (PalettesAt { size_y: y.0, size_uv: uv.0, colours_y: y.1, colours_u: uv.1, colours_v: uv.2 }, uv.3)
}

/// The logarithm of a block side that may have a palette.
proof fn lemma_side(n: int)
    requires
        1 <= n <= 16,
    ensures
        0 <= log2(n) <= 4,
{
    reveal_with_fuel(log2, 6);
}

/// Read the luma palette.
fn read_luma_palette(s: &Setup, units: &Vec<Unit>, stream: &mut Stream<'_>, r: usize, c: usize, size_ctx: usize) -> (res:
    Outcome<(usize, [u16; 8])>)
    requires
        s.wf(),
        s.fits(units@),
        palettes_fit(units@, s.bit_depth as int),
        s.has(r as int, c as int),
        old(stream).wf(),
        size_ctx <= 6,
    ensures
        res is Ok,
        (res->Ok_0.0 as int, res->Ok_0.1@, final(stream)@) == luma_palette(
            *s,
            units@,
            old(stream)@,
            r as int,
            c as int,
            size_ctx as int,
        ),
        res->Ok_0.0 == 0 || 2 <= res->Ok_0.0 <= 8,
        under(res->Ok_0.1@, p2(s.bit_depth as int)),
        final(stream).wf(),
{
    proof {
        lemma_p2_pos(s.bit_depth as int);
    }
    let mut ctx: usize = 0;
    if r > 0 && s.unit_at(units, r - 1, c).size_y > 0 {
        ctx = ctx + 1;
    }
    if c > 0 && s.unit_at(units, r, c - 1).size_y > 0 {
        ctx = ctx + 1;
    }
    let used = stream.pick(ROW_PALETTE_Y + 3 * size_ctx + ctx)?;
    if used != 0 {
        assert(stream@.rows[ROW_PALETTE_Y_SIZE + size_ctx].len() == 8);
        let size = stream.pick(ROW_PALETTE_Y_SIZE + size_ctx)? + 2;
        let cache = palette_cache_for(s, units, r, c, false);
        let colours = read_palette_colors(stream, size, &cache, s.bit_depth, true)?;
        Ok((size, colours))
    } else {
        let none: [u16; 8] = [0; 8];
        assert(none@ =~= no_colours());
        Ok((0, none))
    }
}

/// Read the chroma palettes.
fn read_chroma_palettes(
    s: &Setup,
    units: &Vec<Unit>,
    stream: &mut Stream<'_>,
    r: usize,
    c: usize,
    size_ctx: usize,
    size_y: usize,
) -> (res: Outcome<(usize, [u16; 8], [u16; 8])>)
    requires
        s.wf(),
        s.fits(units@),
        palettes_fit(units@, s.bit_depth as int),
        s.has(r as int, c as int),
        old(stream).wf(),
        size_ctx <= 6,
    ensures
        res is Ok,
        (res->Ok_0.0 as int, res->Ok_0.1@, res->Ok_0.2@, final(stream)@) == chroma_palettes(
            *s,
            units@,
            old(stream)@,
            r as int,
            c as int,
            size_ctx as int,
            size_y as int,
        ),
        res->Ok_0.0 == 0 || 2 <= res->Ok_0.0 <= 8,
        under(res->Ok_0.1@, p2(s.bit_depth as int)),
        under(res->Ok_0.2@, p2(s.bit_depth as int)),
        final(stream).wf(),
{
    proof {
        lemma_p2_pos(s.bit_depth as int);
    }
    let k = if size_y > 0 {
        ROW_PALETTE_UV + 1
    } else {
        ROW_PALETTE_UV
    };
    let used = stream.pick(k)?;
    if used != 0 {
        assert(stream@.rows[ROW_PALETTE_UV_SIZE + size_ctx].len() == 8);
        let size = stream.pick(ROW_PALETTE_UV_SIZE + size_ctx)? + 2;
        let cache = palette_cache_for(s, units, r, c, true);
        let u = read_palette_colors(stream, size, &cache, s.bit_depth, false)?;
        let v = read_palette_colors_v(stream, size, s.bit_depth)?;
        Ok((size, u, v))
    } else {
        let none: [u16; 8] = [0; 8];
        assert(none@ =~= no_colours());
        Ok((0, none, none))
    }
}

/// Read the palettes of a block of 8 by 8 to 64 by 64 samples.
pub fn read_palette_mode_info(
    s: &Setup,
    units: &Vec<Unit>,
    stream: &mut Stream<'_>,
    r: usize,
    c: usize,
    bw4: usize,
    bh4: usize,
    y_mode: usize,
    uv_mode: usize,
) -> (res: Outcome<Palettes>)
    requires
        s.wf(),
        s.fits(units@),
        palettes_fit(units@, s.bit_depth as int),
        s.has(r as int, c as int),
        old(stream).wf(),
        2 <= bw4 <= 16,
        2 <= bh4 <= 16,
    ensures
        res is Ok,
        (res->Ok_0@, final(stream)@) == palettes(
            *s,
            units@,
            old(stream)@,
            r as int,
            c as int,
            bw4 as int,
            bh4 as int,
            y_mode as int,
            uv_mode as int,
        ),
        res->Ok_0.size_y == 0 || 2 <= res->Ok_0.size_y <= 8,
        res->Ok_0.size_uv == 0 || 2 <= res->Ok_0.size_uv <= 8,
        res->Ok_0@.fits(s.bit_depth as int),
        final(stream).wf(),
{
    proof {
        lemma_p2_pos(s.bit_depth as int);
        lemma_side(bw4 as int);
        lemma_side(bh4 as int);
        reveal_with_fuel(log2, 3);
    }
    let sides = floor_log2(bw4 as u32) + floor_log2(bh4 as u32);
    let size_ctx: usize = if sides >= 2 {
        (sides - 2) as usize
    } else {
        0
    };
    let none: [u16; 8] = [0; 8];
    assert(none@ =~= no_colours());
    let (size_y, colours_y) = if y_mode == 0 {
        read_luma_palette(s, units, stream, r, c, size_ctx)?
    } else {
        (0, none)
    };
    let (size_uv, colours_u, colours_v) = if s.num_planes > 1 && uv_mode == 0 {
        read_chroma_palettes(s, units, stream, r, c, size_ctx, size_y)?
    } else {
        (0, none, none)
    };
    Ok(Palettes { size_y, size_uv, colours_y, colours_u, colours_v })
}

/// The colour index at a place of a map.
pub open spec fn map_at(map: Seq<u8>, bw: int, row: int, column: int) -> u8 {
    map[row * bw + column]
}

/// The colour index at a place of a map, if it is one.
pub open spec fn beside(map: Seq<u8>, bw: int, row: int, column: int) -> Option<u8> {
    if row >= 0 && column >= 0 {
        Some(map_at(map, bw, row, column))
    } else {
        None
    }
}

/// One colour index, and the stream after it. The neighbours rank the colours, and
/// the symbol is the place of the colour among them.
pub open spec fn colour_index(st: Coded, map: Seq<u8>, size: int, bw: int, base: int, row: int, column: int) -> (
    u8,
    Coded,
) {
    let rank = ranking(
        beside(map, bw, row, column - 1),
        beside(map, bw, row - 1, column - 1),
        beside(map, bw, row - 1, column),
        size,
    );
    let t = next(st, false, base + 5 * (size - 2) + score_context(rank.0));
    (rank.1[t.0], t.1)
}

/// A map filled from diagonal `i` on, each from the top right: the map, and the
/// stream after it.
pub open spec fn diagonals(st: Coded, map: Seq<u8>, size: int, bw: int, bh: int, base: int, i: int, column: int) -> (
    Seq<u8>,
    Coded,
)
    decreases bw + bh - 1 - i, column + 1,
{
    if i >= bw + bh - 1 {
        (map, st)
    } else if column < 0 || column < i - (bh - 1) {
        diagonals(st, map, size, bw, bh, base, i + 1, min(i + 1, bw - 1))
    } else {
        let row = i - column;
        let t = colour_index(st, map, size, bw, base, row, column);
        diagonals(t.1, map.update(row * bw + column, t.0), size, bw, bh, base, i, column - 1)
    }
}

/// A colour map, and the stream after it.
pub open spec fn colour_map(st: Coded, size: int, bw: int, bh: int, base: int) -> (Seq<u8>, Coded) {
    let first = below(st, size);
    let map = Seq::new((bw * bh) as nat, |k: int| 0u8).update(0, first.0 as u8);
    diagonals(first.1, map, size, bw, bh, base, 1, min(1, bw - 1))
}

/// The colour index at a place of a map, if it is one.
fn index_beside(map: &Vec<u8>, bw: usize, bh: usize, row: usize, column: usize, up: bool, back: bool) -> (r: Option<u8>)
    requires
        map@.len() == bw * bh,
        row < bh,
        column < bw,
    ensures
        r == beside(
            map@,
            bw as int,
            if up {
                row - 1
            } else {
                row as int
            },
            if back {
                column - 1
            } else {
                column as int
            },
        ),
{
    if (up && row == 0) || (back && column == 0) {
        return None;
    }
    let y = if up {
        row - 1
    } else {
        row
    };
    let x = if back {
        column - 1
    } else {
        column
    };
    proof {
        super::units::lemma_grid(bw as int, bh as int, y as int, x as int);
        assert(map@.len() == map.len());
    }
    Some(map[y * bw + x])
}

/// Read a colour map of a block.
fn read_color_map(stream: &mut Stream<'_>, size: usize, bw: usize, bh: usize, base: usize) -> (r: Outcome<Vec<u8>>)
    requires
        old(stream).wf(),
        2 <= size <= 8,
        1 <= bw <= 64,
        1 <= bh <= 64,
        base == ROW_COLOUR_Y || base == ROW_COLOUR_UV,
    ensures
        r is Ok,
        (r->Ok_0@, final(stream)@) == colour_map(old(stream)@, size as int, bw as int, bh as int, base as int),
        r->Ok_0@.len() == bw * bh,
        final(stream).wf(),
{
    proof {
        assert(1 <= bw * bh <= 4096) by (nonlinear_arith)
            requires
                1 <= bw <= 64,
                1 <= bh <= 64,
        ;
    }
    let first = stream.below(size as u32)?;
    let mut map: Vec<u8> = vec![0; bw * bh];
    assert(map@ =~= Seq::new((bw * bh) as nat, |k: int| 0u8));
    map[0] = first as u8;
    let ghost (st0, map0) = (stream@, map@);
    let mut i: usize = 1;
    while i < bw + bh - 1
        invariant
            1 <= i <= bw + bh - 1,
            2 <= size <= 8,
            1 <= bw <= 64,
            1 <= bh <= 64,
            base == ROW_COLOUR_Y || base == ROW_COLOUR_UV,
            map@.len() == bw * bh,
            stream.wf(),
            diagonals(st0, map0, size as int, bw as int, bh as int, base as int, 1, min(1, bw - 1)) == diagonals(
                stream@,
                map@,
                size as int,
                bw as int,
                bh as int,
                base as int,
                i as int,
                min(i as int, bw - 1),
            ),
        decreases bw + bh - 1 - i,
    {
        let last: usize = if i < bw - 1 {
            i
        } else {
            bw - 1
        };
        let lowest: usize = if i > bh - 1 {
            i - (bh - 1)
        } else {
            0
        };
        // The column is one less, so that the walk may end below zero.
        let mut past: usize = last + 1;
        while past > lowest
            invariant
                1 <= i < bw + bh - 1,
                past <= last + 1,
                lowest <= past,
                last == min(i as int, bw - 1),
                lowest == max(i - (bh - 1), 0),
                2 <= size <= 8,
                1 <= bw <= 64,
                1 <= bh <= 64,
                base == ROW_COLOUR_Y || base == ROW_COLOUR_UV,
                map@.len() == bw * bh,
                stream.wf(),
                diagonals(st0, map0, size as int, bw as int, bh as int, base as int, 1, min(1, bw - 1)) == diagonals(
                    stream@,
                    map@,
                    size as int,
                    bw as int,
                    bh as int,
                    base as int,
                    i as int,
                    past - 1,
                ),
            decreases past,
        {
            let column = past - 1;
            let row = i - column;
            let left = index_beside(&map, bw, bh, row, column, false, true);
            let above_left = index_beside(&map, bw, bh, row, column, true, true);
            let above = index_beside(&map, bw, bh, row, column, true, false);
            let (order, ctx) = color_context(left, above_left, above, size);
            let k = base + 5 * (size - 2) + ctx;
            proof {
                super::units::lemma_grid(bw as int, bh as int, row as int, column as int);
                let at = 5 * (size - 2) + ctx;
                assert(at / 5 == size - 2);
                assert(stream@.rows[base + at].len() == 3 + at / 5);
                assert(map@.len() == map.len());
            }
            let symbol = stream.pick(k)?;
            map[row * bw + column] = order[symbol];
            past = past - 1;
        }
        i = i + 1;
    }
    Ok(map)
}

/// The colour maps of a block, and the stream after them.
pub open spec fn colour_maps(st: Coded, p: PalettesAt, bw: int, bh: int) -> (Seq<u8>, Seq<u8>, Coded) {
    let y = if p.size_y > 0 {
        colour_map(st, p.size_y, bw, bh, ROW_COLOUR_Y as int)
    } else {
        (Seq::empty(), st)
    };
    let uv = if p.size_uv > 0 {
        colour_map(y.1, p.size_uv, bw, bh, ROW_COLOUR_UV as int)
    } else {
        (Seq::empty(), y.1)
    };
    (y.0, uv.0, uv.1)
}

/// Read the colour maps of a block.
pub fn read_palette_tokens(stream: &mut Stream<'_>, p: &Palettes, bw: usize, bh: usize) -> (r: Outcome<(Vec<u8>, Vec<u8>)>)
    requires
        old(stream).wf(),
        p.size_y == 0 || 2 <= p.size_y <= 8,
        p.size_uv == 0 || 2 <= p.size_uv <= 8,
        p.size_y > 0 || p.size_uv > 0 ==> 1 <= bw <= 64 && 1 <= bh <= 64,
    ensures
        r is Ok,
        (r->Ok_0.0@, r->Ok_0.1@, final(stream)@) == colour_maps(old(stream)@, p@, bw as int, bh as int),
        p.size_y > 0 ==> r->Ok_0.0@.len() == bw * bh,
        p.size_uv > 0 ==> r->Ok_0.1@.len() == bw * bh,
        final(stream).wf(),
{
    let map_y = if p.size_y > 0 {
        read_color_map(stream, p.size_y, bw, bh, ROW_COLOUR_Y)?
    } else {
        Vec::new()
    };
    let map_uv = if p.size_uv > 0 {
        read_color_map(stream, p.size_uv, bw, bh, ROW_COLOUR_UV)?
    } else {
        Vec::new()
    };
    Ok((map_y, map_uv))
}

} // verus!
