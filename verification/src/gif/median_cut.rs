//! Choosing a palette by median cut.
//!
//! The colours of an image are counted and parted into boxes. The heaviest box
//! that can be is split at the median of its widest channel, until there are as
//! many boxes as the palette may have entries. Each entry is the mean of a box.
use super::quantize::{entry_at, Palette};
use super::sort::{
    by_key, lemma_ordered, lemma_ordered_holds, lemma_ordered_weight, lemma_same_order, lemma_weight_split, ordered, sort,
    weight,
};
use crate::math::{clamp, max, min};
use vstd::prelude::*;
use vstd::relations::sorted_by;
use vstd::seq_lib::group_to_multiset_ensures;

verus! {

/// The number of a colour: its channels as the digits to base 256.
pub open spec fn code(entry: [u8; 3]) -> int {
    entry@[0] * 65536 + entry@[1] * 256 + entry@[2]
}

/// One more than the greatest number of a colour.
pub const CODES: u32 = 0x100_0000;

/// The colour of a number.
pub open spec fn colour(code: int) -> [u8; 3] {
    [(code / 65536) as u8, ((code / 256) % 256) as u8, (code % 256) as u8]
}

/// A number has one colour, and a colour one number.
pub proof fn lemma_code(entry: [u8; 3])
    ensures
        0 <= code(entry) < CODES,
        colour(code(entry)) == entry,
{
    assert(colour(code(entry))@ =~= entry@);
}

/// The colour of a number.
fn colour_of(code: u32) -> (r: [u8; 3])
    requires
        code < CODES,
    ensures
        r == colour(code as int),
{
    [(code / 65536) as u8, ((code / 256) % 256) as u8, (code % 256) as u8]
}

/// The pixels of an image.
pub open spec fn triples(pixels: Seq<u8>) -> Seq<[u8; 3]> {
    Seq::new((pixels.len() / 3) as nat, |i: int| entry_at(pixels, i))
}

/// The numbers of colours are in the order of the colours: red, then green, then
/// blue decides.
pub proof fn lemma_code_order(a: [u8; 3], b: [u8; 3])
    ensures
        code(a) < code(b) <==> (a@[0] < b@[0] || (a@[0] == b@[0] && (a@[1] < b@[1] || (a@[1] == b@[1] && a@[2]
            < b@[2])))),
        code(a) == code(b) <==> a == b,
{
    lemma_code(a);
    lemma_code(b);
}

/// The pixels of an image by their numbers, each counted once.
pub open spec fn marks(pixels: Seq<u8>) -> Seq<(u32, u64)> {
    Seq::new((pixels.len() / 3) as nat, |i: int| (code(entry_at(pixels, i)) as u32, 1u64))
}

/// Neighbours with one key joined, their counts added.
pub open spec fn grouped(items: Seq<(u32, u64)>) -> Seq<(u32, u64)>
    decreases items.len(),
{
    if items.len() == 0 {
        Seq::empty()
    } else {
        let front = grouped(items.drop_last());
        let last = items.last();
        if front.len() > 0 && front.last().0 == last.0 {
            front.drop_last().push((last.0, (front.last().1 + last.1) as u64))
        } else {
            front.push(last)
        }
    }
}

/// The colours of an image in rising order, each with its number of pixels.
pub open spec fn histogram(pixels: Seq<u8>) -> Seq<(u32, u64)> {
    grouped(ordered(marks(pixels)))
}

/// Whether an item has a key.
pub open spec fn has_key(items: Seq<(u32, u64)>, key: u32) -> bool {
    exists|i: int| 0 <= i < items.len() && (#[trigger] items[i]).0 == key
}

/// Joining neighbours keeps the keys, and the counts in all where those can be
/// counted, and puts the keys in strictly rising order.
proof fn lemma_grouped(items: Seq<(u32, u64)>)
    requires
        sorted_by(items, by_key()),
    ensures
        grouped(items).len() <= items.len(),
        items.len() > 0 ==> grouped(items).len() > 0 && grouped(items).last().0 == items.last().0,
        weight(items) <= u64::MAX ==> weight(grouped(items)) == weight(items),
        forall|i: int, j: int| 0 <= i < j < grouped(items).len() ==> grouped(items)[i].0 < grouped(items)[j].0,
        forall|k: int| 0 <= k < items.len() ==> has_key(grouped(items), #[trigger] items[k].0),
        forall|i: int| 0 <= i < grouped(items).len() ==> has_key(items, #[trigger] grouped(items)[i].0),
    decreases items.len(),
{
    let g = grouped(items);
    if items.len() > 0 {
        let front_items = items.drop_last();
        let front = grouped(front_items);
        let last = items.last();
        assert(weight(front_items) >= 0 && weight(front_items) <= weight(items)) by {
            lemma_weight_split(items, items.len() - 1);
            assert(items.take(items.len() - 1) =~= front_items);
        }
        assert(sorted_by(front_items, by_key()));
        lemma_grouped(front_items);
        if front.len() > 0 {
            assert(by_key()(items[items.len() - 2], last));
            lemma_weight_split(front, front.len() - 1);
            assert(front.take(front.len() - 1) =~= front.drop_last());
        }
        let joins = front.len() > 0 && front.last().0 == last.0;
        if joins {
            assert(g.drop_last() =~= front.drop_last());
        } else {
            assert(g.drop_last() =~= front);
        }
        assert(g.last().0 == last.0);
        assert forall|k: int| 0 <= k < items.len() implies has_key(g, #[trigger] items[k].0) by {
            if k < items.len() - 1 {
                assert(front_items[k] == items[k]);
                assert(has_key(front, front_items[k].0));
                let i = choose|i: int| 0 <= i < front.len() && (#[trigger] front[i]).0 == items[k].0;
                if joins && i == front.len() - 1 {
                    assert(g[g.len() - 1].0 == items[k].0);
                } else {
                    assert(g[i].0 == items[k].0);
                }
            } else {
                assert(g[g.len() - 1].0 == items[k].0);
            }
        }
        assert forall|i: int| 0 <= i < g.len() implies has_key(items, #[trigger] g[i].0) by {
            if i < g.len() - 1 {
                assert(front[i].0 == g[i].0);
                assert(has_key(front_items, front[i].0));
                let k = choose|k: int| 0 <= k < front_items.len() && (#[trigger] front_items[k]).0 == front[i].0;
                assert(items[k].0 == g[i].0);
            } else {
                assert(items[items.len() - 1].0 == g[i].0);
            }
        }
        assert forall|i: int, j: int| 0 <= i < j < g.len() implies g[i].0 < g[j].0 by {
            assert(front[i].0 == g[i].0);
            if j < g.len() - 1 {
                assert(front[j].0 == g[j].0);
            } else if !joins {
                assert(front[i].0 <= front.last().0);
            } else {
                assert(front[i].0 < front[front.len() - 1].0);
            }
        }
    }
}

/// Marks count their pixels.
proof fn lemma_marks_weight(items: Seq<(u32, u64)>)
    requires
        forall|i: int| 0 <= i < items.len() ==> (#[trigger] items[i]).1 == 1,
    ensures
        weight(items) == items.len(),
    decreases items.len(),
{
    if items.len() > 0 {
        lemma_marks_weight(items.drop_last());
    }
}

/// The histogram of an image holds each of its colours once and no other, in
/// rising order, and counts every pixel of an image whose pixels can be counted.
pub proof fn lemma_histogram(pixels: Seq<u8>)
    ensures
        ({
            let h = histogram(pixels);
            &&& pixels.len() / 3 <= u64::MAX ==> weight(h) == pixels.len() / 3
            &&& h.len() <= pixels.len() / 3
            &&& pixels.len() / 3 > 0 ==> h.len() > 0
            &&& forall|i: int, j: int| 0 <= i < j < h.len() ==> h[i].0 < h[j].0
            &&& forall|k: int|
                0 <= k < pixels.len() as int / 3 ==> has_key(h, #[trigger] code(entry_at(pixels, k)) as u32)
            &&& forall|i: int| 0 <= i < h.len() ==> (#[trigger] h[i]).0 < CODES
            &&& forall|i: int| 0 <= i < h.len() ==> triples(pixels).contains(colour(#[trigger] h[i].0 as int))
        }),
{
    let m = marks(pixels);
    let o = ordered(m);
    let h = histogram(pixels);
    lemma_marks_weight(m);
    lemma_ordered(m);
    lemma_ordered_weight(m);
    lemma_grouped(o);
    assert forall|k: int| 0 <= k < pixels.len() as int / 3 implies has_key(h, #[trigger] code(entry_at(pixels, k)) as u32) by {
        lemma_ordered_holds(m, m[k]);
        assert(m.contains(m[k]));
        let i = choose|i: int| 0 <= i < o.len() && o[i] == m[k];
        assert(has_key(h, o[i].0));
    }
    assert forall|i: int| 0 <= i < h.len() implies (#[trigger] h[i]).0 < CODES && triples(pixels).contains(
        colour(h[i].0 as int),
    ) by {
        assert(has_key(o, h[i].0));
        let k = choose|k: int| 0 <= k < o.len() && (#[trigger] o[k]).0 == h[i].0;
        lemma_ordered_holds(m, o[k]);
        assert(o.contains(o[k]));
        let j = choose|j: int| 0 <= j < m.len() && m[j] == o[k];
        lemma_code(entry_at(pixels, j));
        assert(triples(pixels)[j] == colour(h[i].0 as int));
    }
}

/// Count the colours of an image.
fn count_colours(pixels: &[u8]) -> (r: Vec<(u32, u64)>)
    ensures
        r@ == histogram(pixels@),
{
    let count = pixels.len() / 3;
    assert(pixels@.len() == pixels.len());
    let mut items: Vec<(u32, u64)> = Vec::new();
    let mut i: usize = 0;
    while i < count
        invariant
            i <= count,
            count == pixels@.len() / 3,
            pixels@.len() == pixels.len(),
            items@ == marks(pixels@).take(i as int),
        decreases count - i,
    {
        let (red, green, blue) = (pixels[3 * i] as u32, pixels[3 * i + 1] as u32, pixels[3 * i + 2] as u32);
        let key = red * 65536 + green * 256 + blue;
        assert(key == code(entry_at(pixels@, i as int)));
        items.push((key, 1));
        assert(marks(pixels@).take(i + 1) =~= marks(pixels@).take(i as int).push(marks(pixels@)[i as int]));
        i = i + 1;
    }
    assert(items@ =~= marks(pixels@));
    let sorted = sort(&items);
    proof {
        lemma_marks_weight(items@);
        lemma_ordered(items@);
        lemma_ordered_weight(items@);
    }
    join_equal(&sorted)
}

/// Join neighbours with one key.
fn join_equal(items: &Vec<(u32, u64)>) -> (r: Vec<(u32, u64)>)
    requires
        sorted_by(items@, by_key()),
        weight(items@) <= u64::MAX,
    ensures
        r@ == grouped(items@),
{
    let mut out: Vec<(u32, u64)> = Vec::new();
    let mut i: usize = 0;
    assert(items@.take(0) =~= Seq::empty());
    while i < items.len()
        invariant
            i <= items@.len(),
            sorted_by(items@, by_key()),
            weight(items@) <= u64::MAX,
            out@ == grouped(items@.take(i as int)),
        decreases items@.len() - i,
    {
        let item = items[i];
        proof {
            let t = items@.take(i as int);
            assert(items@.take(i + 1).drop_last() =~= t);
            lemma_weight_split(items@, i + 1);
            lemma_weight_split(items@, i as int);
            lemma_grouped(t);
            if out@.len() > 0 {
                lemma_weight_split(out@, out@.len() - 1);
                assert(out@.take(out@.len() - 1) =~= out@.drop_last());
            }
        }
        let len = out.len();
        if len > 0 && out[len - 1].0 == item.0 {
            let joined = out[len - 1].1 + item.1;
            out.pop();
            out.push((item.0, joined));
        } else {
            out.push(item);
        }
        i = i + 1;
    }
    assert(items@.take(items@.len() as int) =~= items@);
    out
}

/// A channel of a colour.
pub open spec fn channel(code: int, c: int) -> int {
    if c == 0 {
        code / 65536
    } else if c == 1 {
        (code / 256) % 256
    } else {
        code % 256
    }
}

/// A channel of a colour.
fn channel_of(code: u32, c: usize) -> (r: u32)
    requires
        code < CODES,
        c < 3,
    ensures
        r == channel(code as int, c as int),
        r <= 255,
{
    if c == 0 {
        code / 65536
    } else if c == 1 {
        (code / 256) % 256
    } else {
        code % 256
    }
}

/// The least value of a channel.
pub open spec fn lowest(items: Seq<(u32, u64)>, c: int) -> int
    decreases items.len(),
{
    if items.len() == 0 {
        255
    } else {
        min(lowest(items.drop_last(), c), channel(items.last().0 as int, c))
    }
}

/// The greatest value of a channel.
pub open spec fn highest(items: Seq<(u32, u64)>, c: int) -> int
    decreases items.len(),
{
    if items.len() == 0 {
        0
    } else {
        max(highest(items.drop_last(), c), channel(items.last().0 as int, c))
    }
}

/// The spread of a channel.
pub open spec fn extent(items: Seq<(u32, u64)>, c: int) -> int {
    max(highest(items, c) - lowest(items, c), 0)
}

/// The first of the channels with the widest spread.
pub open spec fn widest(items: Seq<(u32, u64)>) -> int {
    if extent(items, 1) > extent(items, 0) {
        if extent(items, 2) > extent(items, 1) {
            2
        } else {
            1
        }
    } else if extent(items, 2) > extent(items, 0) {
        2
    } else {
        0
    }
}

/// The widest spread.
pub open spec fn spread(items: Seq<(u32, u64)>) -> int {
    extent(items, widest(items))
}

/// Whether keys are numbers of colours.
pub open spec fn colours_only(items: Seq<(u32, u64)>) -> bool {
    forall|i: int| 0 <= i < items.len() ==> (#[trigger] items[i]).0 < CODES
}

/// Items keyed by a channel first.
pub open spec fn keyed(items: Seq<(u32, u64)>, c: int) -> Seq<(u32, u64)> {
    Seq::new(items.len(), |i: int| ((channel(items[i].0 as int, c) * CODES + items[i].0) as u32, items[i].1))
}

/// Items keyed by their colours again.
pub open spec fn unkeyed(items: Seq<(u32, u64)>) -> Seq<(u32, u64)> {
    Seq::new(items.len(), |i: int| (items[i].0 % CODES, items[i].1))
}

/// Items in the order of a channel, and of the whole colour where that is equal.
pub open spec fn arranged(items: Seq<(u32, u64)>, c: int) -> Seq<(u32, u64)> {
    unkeyed(ordered(keyed(items, c)))
}

/// The first place, from `i` on, up to which the counts make a half.
pub open spec fn reach(items: Seq<(u32, u64)>, half: int, i: int) -> int
    decreases items.len() - i,
{
    if i >= items.len() - 1 || weight(items.take(i + 1)) >= half {
        i
    } else {
        reach(items, half, i + 1)
    }
}

/// Where a box is split: behind the colour at which half of the pixels are
/// reached, with a colour left on each side.
pub open spec fn split_point(items: Seq<(u32, u64)>, half: int) -> int {
    max(min(reach(items, half, 0) + 1, items.len() - 1), 1)
}

/// The two parts of a box.
pub open spec fn halves(items: Seq<(u32, u64)>) -> (Seq<(u32, u64)>, Seq<(u32, u64)>) {
    let a = arranged(items, widest(items));
    let at = split_point(a, weight(items) / 2);
    (a.take(at), a.skip(at))
}

/// A channel, over all pixels.
pub open spec fn channel_total(items: Seq<(u32, u64)>, c: int) -> int
    decreases items.len(),
{
    if items.len() == 0 {
        0
    } else {
        channel_total(items.drop_last(), c) + channel(items.last().0 as int, c) * items.last().1
    }
}

/// The mean of a channel over all pixels, rounded.
pub open spec fn mean(items: Seq<(u32, u64)>, c: int) -> int {
    if weight(items) == 0 {
        0
    } else {
        min((channel_total(items, c) + weight(items) / 2) / weight(items), 255)
    }
}

/// The mean colour of a box.
pub open spec fn average(items: Seq<(u32, u64)>) -> int {
    mean(items, 0) * 65536 + mean(items, 1) * 256 + mean(items, 2)
}

/// Whether a box is at least as heavy as another, or as heavy and its spread at
/// least as wide.
pub open spec fn rivals(a: Seq<(u32, u64)>, b: Seq<(u32, u64)>) -> bool {
    weight(a) > weight(b) || (weight(a) == weight(b) && spread(a) >= spread(b))
}

/// The last of the heaviest boxes that can be split.
pub open spec fn candidate(boxes: Seq<Seq<(u32, u64)>>) -> Option<int>
    decreases boxes.len(),
{
    if boxes.len() == 0 {
        None
    } else {
        let before = candidate(boxes.drop_last());
        if boxes.last().len() <= 1 {
            before
        } else {
            match before {
                None => Some(boxes.len() - 1),
                Some(k) => if rivals(boxes.last(), boxes[k]) {
                    Some(boxes.len() - 1)
                } else {
                    before
                },
            }
        }
    }
}

/// Boxes with one of them split, the last in its place and its parts at the end.
pub open spec fn parted(boxes: Seq<Seq<(u32, u64)>>, k: int) -> Seq<Seq<(u32, u64)>> {
    let h = halves(boxes[k]);
    boxes.update(k, boxes.last()).drop_last().push(h.0).push(h.1)
}

/// Boxes split until there are `size` or none can be.
pub open spec fn cut(boxes: Seq<Seq<(u32, u64)>>, size: int) -> Seq<Seq<(u32, u64)>>
    decreases size - boxes.len(),
{
    if boxes.len() >= size || boxes.len() == 0 {
        boxes
    } else {
        match candidate(boxes) {
            None => boxes,
            Some(k) => {
                proof {
                    lemma_candidate(boxes);
                }
                cut(parted(boxes, k), size)
            },
        }
    }
}

/// The box that is split is one that can be, and no other that can be outdoes it.
pub proof fn lemma_candidate(boxes: Seq<Seq<(u32, u64)>>)
    ensures
        candidate(boxes) matches Some(k) ==> 0 <= k < boxes.len() && boxes[k].len() > 1 && (forall|j: int|
            0 <= j < boxes.len() && (#[trigger] boxes[j]).len() > 1 ==> rivals(boxes[k], boxes[j])),
        candidate(boxes) is None ==> (forall|j: int| 0 <= j < boxes.len() ==> (#[trigger] boxes[j]).len() <= 1),
    decreases boxes.len(),
{
    if boxes.len() > 0 {
        let front = boxes.drop_last();
        lemma_candidate(front);
        assert forall|j: int| 0 <= j < front.len() implies front[j] == boxes[j] by {}
        if let Some(k) = candidate(boxes) {
            assert forall|j: int| 0 <= j < boxes.len() && (#[trigger] boxes[j]).len() > 1 implies rivals(boxes[k], boxes[j]) by {
                if j < front.len() {
                    assert(front[j] == boxes[j]);
                }
            }
        } else {
            assert forall|j: int| 0 <= j < boxes.len() implies (#[trigger] boxes[j]).len() <= 1 by {
                if j < front.len() {
                    assert(front[j] == boxes[j]);
                }
            }
        }
    }
}

/// The keys of some items.
pub open spec fn keys(items: Seq<(u32, u64)>) -> Seq<int> {
    Seq::new(items.len(), |i: int| items[i].0 as int)
}

/// The means of some boxes.
pub open spec fn averages(boxes: Seq<Seq<(u32, u64)>>) -> Seq<(u32, u64)> {
    Seq::new(boxes.len(), |i: int| (average(boxes[i]) as u32, 0u64))
}

/// The palette of an image, by the numbers of its colours: the colours themselves
/// where they are no more than the size asked for, which is held to 2 to 256, else
/// the means of the boxes, in rising order and each once. One black entry where
/// there are no pixels.
pub open spec fn palette_of(pixels: Seq<u8>, size: int) -> Seq<int> {
    let most = clamp(size, 2, 256);
    let h = histogram(pixels);
    if pixels.len() / 3 == 0 {
        seq![0int]
    } else if h.len() <= most {
        keys(h)
    } else {
        keys(grouped(ordered(averages(cut(seq![h], most)))))
    }
}

/// The numbers of some entries.
pub open spec fn codes(entries: Seq<[u8; 3]>) -> Seq<int> {
    Seq::new(entries.len(), |i: int| code(entries[i]))
}

/// The values of channels are those of bytes.
proof fn lemma_channel(code: int, c: int)
    requires
        0 <= code < CODES,
    ensures
        0 <= channel(code, c) <= 255,
{
}

/// Keying loses nothing.
proof fn lemma_arranged(items: Seq<(u32, u64)>, c: int)
    requires
        colours_only(items),
    ensures
        arranged(items, c).len() == items.len(),
        weight(arranged(items, c)) == weight(items),
        colours_only(arranged(items, c)),
{
    let k = keyed(items, c);
    let o = ordered(k);
    lemma_ordered(k);
    lemma_ordered_weight(k);
    assert forall|i: int| 0 <= i < items.len() implies (#[trigger] k[i]).1 == items[i].1 by {}
    lemma_same_counts(k, items);
    lemma_same_counts(arranged(items, c), o);
}

/// Equal counts are equal in all.
proof fn lemma_same_counts(a: Seq<(u32, u64)>, b: Seq<(u32, u64)>)
    requires
        a.len() == b.len(),
        forall|i: int| 0 <= i < a.len() ==> (#[trigger] a[i]).1 == b[i].1,
    ensures
        weight(a) == weight(b),
    decreases a.len(),
{
    if a.len() > 0 {
        assert forall|i: int| 0 <= i < a.drop_last().len() implies (#[trigger] a.drop_last()[i]).1 == b.drop_last()[i].1 by {
            assert(a[i].1 == b[i].1);
        }
        lemma_same_counts(a.drop_last(), b.drop_last());
        assert(a[a.len() - 1].1 == b[b.len() - 1].1);
    }
}

/// A place where a half is reached is a place.
proof fn lemma_reach(items: Seq<(u32, u64)>, half: int, i: int)
    requires
        0 <= i < items.len(),
    ensures
        i <= reach(items, half, i) < items.len(),
    decreases items.len() - i,
{
    if i < items.len() - 1 {
        lemma_reach(items, half, i + 1);
    }
}

/// Splitting a box always makes progress: each part has a colour, and together they
/// have the colours and the pixels of the box.
pub proof fn lemma_split_progresses(items: Seq<(u32, u64)>)
    requires
        items.len() > 1,
        colours_only(items),
    ensures
        halves(items).0.len() >= 1,
        halves(items).1.len() >= 1,
        halves(items).0.len() + halves(items).1.len() == items.len(),
        weight(halves(items).0) + weight(halves(items).1) == weight(items),
        weight(halves(items).0) >= 0,
        weight(halves(items).1) >= 0,
        colours_only(halves(items).0),
        colours_only(halves(items).1),
{
    let a = arranged(items, widest(items));
    lemma_arranged(items, widest(items));
    lemma_reach(a, weight(items) / 2, 0);
    lemma_weight_split(a, split_point(a, weight(items) / 2));
}

/// A channel over all pixels is at most 255 for each.
proof fn lemma_channel_total(items: Seq<(u32, u64)>, c: int)
    requires
        colours_only(items),
    ensures
        0 <= channel_total(items, c) <= 255 * weight(items),
    decreases items.len(),
{
    if items.len() > 0 {
        let last = items[items.len() - 1];
        lemma_channel_total(items.drop_last(), c);
        lemma_channel(last.0 as int, c);
        let v = channel(last.0 as int, c);
        assert(0 <= v * last.1 <= 255 * last.1) by (nonlinear_arith)
            requires
                0 <= v <= 255,
                last.1 >= 0,
        ;
    }
}

/// A mean is the value of a byte, and a mean colour the number of a colour.
proof fn lemma_average(items: Seq<(u32, u64)>)
    requires
        colours_only(items),
        weight(items) >= 0,
    ensures
        forall|c: int| 0 <= #[trigger] mean(items, c) <= 255,
        0 <= average(items) < CODES,
{
    assert forall|c: int| 0 <= #[trigger] mean(items, c) <= 255 by {
        lemma_channel_total(items, c);
        let (t, w) = (channel_total(items, c), weight(items));
        if w > 0 {
            assert((t + w / 2) / w >= 0) by (nonlinear_arith)
                requires
                    t >= 0,
                    w > 0,
            ;
        }
    }
    assert(0 <= mean(items, 0) <= 255 && 0 <= mean(items, 1) <= 255 && 0 <= mean(items, 2) <= 255);
}

/// One box in the partition.
#[derive(Debug)]
struct Box3 {
    /// Distinct colours by their numbers, each with its count of pixels.
    colours: Vec<(u32, u64)>,
    /// Pixels in all.
    weight: u64,
}

impl Box3 {
    /// Whether the weight is that of the colours.
    spec fn wf(&self) -> bool {
        &&& self.weight == weight(self.colours@)
        &&& colours_only(self.colours@)
    }

    /// A box of some colours.
    fn new(colours: Vec<(u32, u64)>) -> (r: Box3)
        requires
            colours_only(colours@),
            weight(colours@) <= u64::MAX,
        ensures
            r.wf(),
            r.colours@ == colours@,
    {
        let mut sum: u64 = 0;
        let mut i: usize = 0;
        assert(colours@.take(0) =~= Seq::empty());
        while i < colours.len()
            invariant
                i <= colours@.len(),
                sum == weight(colours@.take(i as int)),
                weight(colours@) <= u64::MAX,
            decreases colours@.len() - i,
        {
            proof {
                assert(colours@.take(i + 1).drop_last() =~= colours@.take(i as int));
                lemma_weight_split(colours@, i + 1);
            }
            sum = sum + colours[i].1;
            i = i + 1;
        }
        assert(colours@.take(colours@.len() as int) =~= colours@);
        Box3 { colours, weight: sum }
    }

    /// The spread of a channel.
    fn extent_of(&self, c: usize) -> (r: u32)
        requires
            self.wf(),
            c < 3,
        ensures
            r == extent(self.colours@, c as int),
            r <= 255,
    {
        let mut low: u32 = 255;
        let mut high: u32 = 0;
        let mut i: usize = 0;
        assert(self.colours@.take(0) =~= Seq::empty());
        while i < self.colours.len()
            invariant
                i <= self.colours@.len(),
                self.wf(),
                c < 3,
                low == lowest(self.colours@.take(i as int), c as int),
                high == highest(self.colours@.take(i as int), c as int),
                low <= 255,
                high <= 255,
            decreases self.colours@.len() - i,
        {
            assert(self.colours@.take(i + 1).drop_last() =~= self.colours@.take(i as int));
            let value = channel_of(self.colours[i].0, c);
            if value < low {
                low = value;
            }
            if value > high {
                high = value;
            }
            i = i + 1;
        }
        assert(self.colours@.take(self.colours@.len() as int) =~= self.colours@);
        if high > low {
            high - low
        } else {
            0
        }
    }

    /// The channel with the widest spread, and that spread.
    fn widest_channel(&self) -> (r: (usize, u32))
        requires
            self.wf(),
        ensures
            r.0 == widest(self.colours@),
            r.1 == spread(self.colours@),
            r.0 < 3,
    {
        let first = self.extent_of(0);
        let second = self.extent_of(1);
        let third = self.extent_of(2);
        if second > first {
            if third > second {
                (2, third)
            } else {
                (1, second)
            }
        } else if third > first {
            (2, third)
        } else {
            (0, first)
        }
    }

    /// The colours in the order of a channel, and of the whole colour where that is
    /// equal.
    fn arrange(&self, c: usize) -> (r: Vec<(u32, u64)>)
        requires
            self.wf(),
            c < 3,
        ensures
            r@ == arranged(self.colours@, c as int),
    {
        let mut items: Vec<(u32, u64)> = Vec::new();
        let mut i: usize = 0;
        let ghost k = keyed(self.colours@, c as int);
        while i < self.colours.len()
            invariant
                i <= self.colours@.len(),
                self.wf(),
                c < 3,
                k == keyed(self.colours@, c as int),
                items@ == k.take(i as int),
            decreases self.colours@.len() - i,
        {
            let item = self.colours[i];
            items.push((channel_of(item.0, c) * CODES + item.0, item.1));
            assert(k.take(i + 1) =~= k.take(i as int).push(k[i as int]));
            i = i + 1;
        }
        assert(items@ =~= k);
        let sorted = sort(&items);
        let mut out: Vec<(u32, u64)> = Vec::new();
        let mut j: usize = 0;
        while j < sorted.len()
            invariant
                j <= sorted@.len(),
                out@ == unkeyed(sorted@).take(j as int),
            decreases sorted@.len() - j,
        {
            out.push((sorted[j].0 % CODES, sorted[j].1));
            assert(unkeyed(sorted@).take(j + 1) =~= unkeyed(sorted@).take(j as int).push(unkeyed(sorted@)[j as int]));
            j = j + 1;
        }
        assert(out@ =~= unkeyed(sorted@));
        out
    }

    /// Split at the weighted median of the widest channel.
    fn split(self) -> (r: (Box3, Box3))
        requires
            self.wf(),
            self.colours@.len() > 1,
        ensures
            r.0.wf(),
            r.1.wf(),
            (r.0.colours@, r.1.colours@) == halves(self.colours@),
    {
        let (c, _) = self.widest_channel();
        let a = self.arrange(c);
        let half = self.weight / 2;
        proof {
            lemma_arranged(self.colours@, c as int);
            lemma_split_progresses(self.colours@);
            assert(a@.take(0) =~= Seq::empty());
        }
        let mut running: u64 = a[0].1;
        let mut i: usize = 0;
        proof {
            assert(a@.take(1).drop_last() =~= Seq::empty());
            assert(a@.take(1).last() == a@[0]);
            assert(weight(a@.take(1)) == a@[0].1) by {
                reveal_with_fuel(weight, 2);
            }
        }
        while i < a.len() - 1 && running < half
            invariant
                a@.len() > 1,
                i < a@.len(),
                running == weight(a@.take(i + 1)),
                weight(a@) <= u64::MAX,
                reach(a@, half as int, 0) == reach(a@, half as int, i as int),
            decreases a@.len() - i,
        {
            i = i + 1;
            proof {
                assert(a@.take(i + 1).drop_last() =~= a@.take(i as int));
                lemma_weight_split(a@, i + 1);
            }
            running = running + a[i].1;
        }
        let at = if i + 1 < a.len() {
            i + 1
        } else {
            a.len() - 1
        };
        assert(at == split_point(a@, half as int));
        let mut left: Vec<(u32, u64)> = Vec::new();
        let mut right: Vec<(u32, u64)> = Vec::new();
        let mut k: usize = 0;
        while k < a.len()
            invariant
                k <= a@.len(),
                at <= a@.len(),
                left@ == a@.take(if k < at {
                    k as int
                } else {
                    at as int
                }),
                k <= at ==> right@ == Seq::<(u32, u64)>::empty(),
                k > at ==> right@ == a@.subrange(at as int, k as int),
            decreases a@.len() - k,
        {
            if k < at {
                left.push(a[k]);
                assert(a@.take(k + 1) =~= a@.take(k as int).push(a@[k as int]));
            } else {
                right.push(a[k]);
                assert(a@.subrange(at as int, k + 1) =~= right@);
            }
            k = k + 1;
        }
        assert(right@ =~= a@.skip(at as int));
        (Box3::new(left), Box3::new(right))
    }

    /// The mean of a channel over all pixels, rounded.
    fn mean_of(&self, c: usize) -> (r: u32)
        requires
            self.wf(),
            c < 3,
        ensures
            r == mean(self.colours@, c as int),
            r <= 255,
    {
        let mut total: u128 = 0;
        let mut i: usize = 0;
        assert(self.colours@.take(0) =~= Seq::empty());
        while i < self.colours.len()
            invariant
                i <= self.colours@.len(),
                self.wf(),
                c < 3,
                total == channel_total(self.colours@.take(i as int), c as int),
            decreases self.colours@.len() - i,
        {
            let item = self.colours[i];
            let value = channel_of(item.0, c) as u128;
            proof {
                let t = self.colours@.take(i + 1);
                assert(t.drop_last() =~= self.colours@.take(i as int));
                lemma_weight_split(self.colours@, i + 1);
                lemma_channel_total(t, c as int);
                assert(value * item.1 <= 255 * item.1) by (nonlinear_arith)
                    requires
                        value <= 255,
                ;
            }
            total = total + value * item.1 as u128;
            i = i + 1;
        }
        proof {
            assert(self.colours@.take(self.colours@.len() as int) =~= self.colours@);
            lemma_channel_total(self.colours@, c as int);
            lemma_average(self.colours@);
            assert(0 <= mean(self.colours@, c as int) <= 255);
        }
        if self.weight == 0 {
            return 0;
        }
        let rounded = (total + (self.weight / 2) as u128) / self.weight as u128;
        if rounded > 255 {
            255
        } else {
            rounded as u32
        }
    }

    /// The number of the mean colour.
    fn average_of(&self) -> (r: u32)
        requires
            self.wf(),
        ensures
            r == average(self.colours@),
            r < CODES,
    {
        self.mean_of(0) * 65536 + self.mean_of(1) * 256 + self.mean_of(2)
    }
}

/// What some boxes hold.
spec fn contents(boxes: Seq<Box3>) -> Seq<Seq<(u32, u64)>> {
    Seq::new(boxes.len(), |i: int| boxes[i].colours@)
}

/// The last of the heaviest boxes that can be split.
fn choose_box(boxes: &Vec<Box3>) -> (r: Option<usize>)
    requires
        forall|i: int| 0 <= i < boxes@.len() ==> (#[trigger] boxes@[i]).wf(),
    ensures
        r is Some <==> candidate(contents(boxes@)) is Some,
        r matches Some(k) ==> candidate(contents(boxes@)) == Some(k as int),
{
    let mut best: Option<usize> = None;
    let mut i: usize = 0;
    let ghost all = contents(boxes@);
    while i < boxes.len()
        invariant
            i <= boxes@.len(),
            all == contents(boxes@),
            forall|j: int| 0 <= j < boxes@.len() ==> (#[trigger] boxes@[j]).wf(),
            best is Some <==> candidate(all.take(i as int)) is Some,
            best matches Some(k) ==> candidate(all.take(i as int)) == Some(k as int) && k < i,
        decreases boxes@.len() - i,
    {
        proof {
            assert(all.take(i + 1).drop_last() =~= all.take(i as int));
            assert(all.take(i + 1).last() == boxes@[i as int].colours@);
        }
        if boxes[i].colours.len() > 1 {
            best = match best {
                None => Some(i),
                Some(k) => {
                    assert(all.take(i + 1)[k as int] == boxes@[k as int].colours@);
                    let wins = boxes[i].weight > boxes[k].weight || (boxes[i].weight == boxes[k].weight
                        && boxes[i].widest_channel().1 >= boxes[k].widest_channel().1);
                    if wins {
                        Some(i)
                    } else {
                        Some(k)
                    }
                },
            };
        }
        i = i + 1;
    }
    assert(all.take(all.len() as int) =~= all);
    best
}

/// Split boxes until there are `size` or none can be.
fn cut_boxes(colours: Vec<(u32, u64)>, size: usize) -> (r: Vec<Box3>)
    requires
        colours_only(colours@),
        weight(colours@) <= u64::MAX,
        size >= 1,
    ensures
        contents(r@) == cut(seq![colours@], size as int),
        forall|i: int| 0 <= i < r@.len() ==> (#[trigger] r@[i]).wf(),
        r@.len() <= size,
{
    let mut boxes: Vec<Box3> = Vec::new();
    let ghost start = seq![colours@];
    boxes.push(Box3::new(colours));
    assert(contents(boxes@) =~= start);
    while boxes.len() < size
        invariant_except_break
            cut(start, size as int) == cut(contents(boxes@), size as int),
        invariant
            1 <= boxes@.len() <= size,
            forall|i: int| 0 <= i < boxes@.len() ==> (#[trigger] boxes@[i]).wf(),
        ensures
            contents(boxes@) == cut(start, size as int),
        decreases size - boxes@.len(),
    {
        let ghost before = boxes@;
        proof {
            lemma_candidate(contents(before));
        }
        match choose_box(&boxes) {
            None => {
                break;
            },
            Some(k) => {
                assert(contents(before)[k as int] == before[k as int].colours@);
                let chosen = boxes.swap_remove(k);
                let (left, right) = chosen.split();
                boxes.push(left);
                boxes.push(right);
                assert(contents(boxes@) =~= parted(contents(before), k as int));
            },
        }
    }
    boxes
}

/// The entries of some keys.
fn entries_of(items: &Vec<(u32, u64)>) -> (r: Vec<[u8; 3]>)
    requires
        colours_only(items@),
    ensures
        codes(r@) == keys(items@),
{
    let mut out: Vec<[u8; 3]> = Vec::new();
    let mut i: usize = 0;
    while i < items.len()
        invariant
            i <= items@.len(),
            colours_only(items@),
            out@.len() == i,
            forall|j: int| 0 <= j < i ==> code(#[trigger] out@[j]) == items@[j].0,
        decreases items@.len() - i,
    {
        out.push(colour_of(items[i].0));
        i = i + 1;
    }
    assert(codes(out@) =~= keys(items@));
    out
}

/// Cutting makes at most `size` boxes, and loses none.
proof fn lemma_cut_len(boxes: Seq<Seq<(u32, u64)>>, size: int)
    requires
        1 <= boxes.len() <= size,
    ensures
        1 <= cut(boxes, size).len() <= size,
    decreases size - boxes.len(),
{
    if boxes.len() < size {
        lemma_candidate(boxes);
        if let Some(k) = candidate(boxes) {
            lemma_cut_len(parted(boxes, k), size);
        }
    }
}

/// Build a palette of at most `size` entries for an image of three bytes a pixel.
/// The size is held to 2 to 256.
pub fn build_palette(pixels: &[u8], size: usize) -> (r: Palette)
    ensures
        r.wf(),
        codes(r@) == palette_of(pixels@, size as int),
{
    let most: usize = if size < 2 {
        2
    } else if size > 256 {
        256
    } else {
        size
    };
    if pixels.len() / 3 == 0 {
        let black = Palette::new(vec![[0, 0, 0]]);
        assert(codes(black@) =~= seq![0int]);
        return black;
    }
    let colours = count_colours(pixels);
    proof {
        lemma_histogram(pixels@);
        assert(pixels@.len() == pixels.len());
    }
    if colours.len() <= most {
        return Palette::new(entries_of(&colours));
    }
    let ghost h = colours@;
    let boxes = cut_boxes(colours, most);
    let mut means: Vec<(u32, u64)> = Vec::new();
    let ghost all = averages(contents(boxes@));
    let mut i: usize = 0;
    while i < boxes.len()
        invariant
            i <= boxes@.len(),
            all == averages(contents(boxes@)),
            forall|j: int| 0 <= j < boxes@.len() ==> (#[trigger] boxes@[j]).wf(),
            means@ == all.take(i as int),
            colours_only(means@),
        decreases boxes@.len() - i,
    {
        means.push((boxes[i].average_of(), 0));
        assert(all.take(i + 1) =~= all.take(i as int).push(all[i as int]));
        i = i + 1;
    }
    assert(means@ =~= all);
    let sorted = sort(&means);
    proof {
        lemma_ordered(means@);
        lemma_ordered_weight(means@);
        lemma_blank_weight(means@);
        lemma_grouped(sorted@);
    }
    let table = join_equal(&sorted);
    assert(colours_only(table@)) by {
        assert forall|j: int| 0 <= j < table@.len() implies (#[trigger] table@[j]).0 < CODES by {
            assert(has_key(sorted@, table@[j].0));
            let k = choose|k: int| 0 <= k < sorted@.len() && (#[trigger] sorted@[k]).0 == table@[j].0;
            lemma_ordered_holds(means@, sorted@[k]);
            assert(sorted@.contains(sorted@[k]));
        }
    }
    Palette::new(entries_of(&table))
}

/// Items that count nothing weigh nothing.
proof fn lemma_blank_weight(items: Seq<(u32, u64)>)
    requires
        forall|i: int| 0 <= i < items.len() ==> (#[trigger] items[i]).1 == 0,
    ensures
        weight(items) == 0,
    decreases items.len(),
{
    if items.len() > 0 {
        lemma_blank_weight(items.drop_last());
    }
}

/// A palette has an entry, and never more than the size asked for.
pub proof fn lemma_palette_size(pixels: Seq<u8>, size: int)
    ensures
        1 <= palette_of(pixels, size).len() <= clamp(size, 2, 256),
{
    let most = clamp(size, 2, 256);
    let h = histogram(pixels);
    lemma_histogram(pixels);
    let a = averages(cut(seq![h], most));
    lemma_cut_len(seq![h], most);
    lemma_ordered(a);
    lemma_grouped(ordered(a));
}

/// An image with no more colours than the palette may have entries has each of its
/// colours in its palette.
pub proof fn lemma_few_colours_are_exact(pixels: Seq<u8>, size: int, entries: Seq<[u8; 3]>, i: int)
    requires
        histogram(pixels).len() <= clamp(size, 2, 256),
        codes(entries) == palette_of(pixels, size),
        0 <= i < pixels.len() as int / 3,
    ensures
        entries.contains(entry_at(pixels, i)),
{
    let h = histogram(pixels);
    let e = entry_at(pixels, i);
    lemma_histogram(pixels);
    assert(has_key(h, code(e) as u32));
    let k = choose|k: int| 0 <= k < h.len() && (#[trigger] h[k]).0 == code(e) as u32;
    lemma_code(e);
    assert(palette_of(pixels, size) == keys(h));
    assert(codes(entries).len() == keys(h).len());
    assert(codes(entries)[k] == code(entries[k]));
    assert(keys(h)[k] == code(e));
    lemma_code(entries[k]);
    assert(entries[k] == e);
}

/// An image with no more colours than the palette may have entries has no entry in
/// its palette but its colours.
pub proof fn lemma_few_colours_are_all(pixels: Seq<u8>, size: int, entries: Seq<[u8; 3]>, k: int)
    requires
        0 < pixels.len() / 3,
        histogram(pixels).len() <= clamp(size, 2, 256),
        codes(entries) == palette_of(pixels, size),
        0 <= k < entries.len(),
    ensures
        triples(pixels).contains(entries[k]),
{
    let h = histogram(pixels);
    lemma_histogram(pixels);
    assert(codes(entries).len() == keys(h).len());
    assert(codes(entries)[k] == code(entries[k]));
    assert(keys(h)[k] == h[k].0);
    lemma_code(entries[k]);
    assert(triples(pixels).contains(colour(h[k].0 as int)));
}

/// A histogram has one entry for each colour of its image.
pub proof fn lemma_histogram_counts_colours(pixels: Seq<u8>)
    ensures
        histogram(pixels).len() == triples(pixels).to_set().len(),
{
    let h = histogram(pixels);
    let t = triples(pixels);
    let e = Seq::new(h.len(), |i: int| colour(h[i].0 as int));
    lemma_histogram(pixels);
    assert forall|i: int, j: int| 0 <= i < e.len() && 0 <= j < e.len() && i != j implies e[i] != e[j] by {
        lemma_number(h[i].0 as int);
        lemma_number(h[j].0 as int);
    }
    e.unique_seq_to_set();
    assert forall|c: [u8; 3]| e.contains(c) <==> #[trigger] t.contains(c) by {
        if e.contains(c) {
            let i = choose|i: int| 0 <= i < e.len() && e[i] == c;
            assert(t.contains(colour(h[i].0 as int)));
        }
        if t.contains(c) {
            let k = choose|k: int| 0 <= k < t.len() && t[k] == c;
            assert(has_key(h, code(entry_at(pixels, k)) as u32));
            let i = choose|i: int| 0 <= i < h.len() && (#[trigger] h[i]).0 == code(c) as u32;
            lemma_code(c);
            assert(e[i] == c);
        }
    }
    assert(e.to_set() =~= t.to_set());
}

/// The number of the colour of a number is that number.
proof fn lemma_number(n: int)
    requires
        0 <= n < CODES,
    ensures
        code(colour(n)) == n,
{
}

/// The entries of a palette are in strictly rising order, so that none is there twice.
pub proof fn lemma_palette_rises(pixels: Seq<u8>, size: int, i: int, j: int)
    requires
        0 <= i < j < palette_of(pixels, size).len(),
    ensures
        palette_of(pixels, size)[i] < palette_of(pixels, size)[j],
{
    let most = clamp(size, 2, 256);
    let h = histogram(pixels);
    lemma_histogram(pixels);
    let a = averages(cut(seq![h], most));
    lemma_ordered(a);
    lemma_grouped(ordered(a));
}

/// A number is marked as often as its colour is there.
proof fn lemma_marks_count(t: Seq<[u8; 3]>, m: Seq<(u32, u64)>, item: (u32, u64))
    requires
        t.len() == m.len(),
        forall|i: int| 0 <= i < t.len() ==> #[trigger] m[i] == (code(t[i]) as u32, 1u64),
    ensures
        m.to_multiset().count(item) == if item.1 == 1 && item.0 < CODES {
            t.to_multiset().count(colour(item.0 as int))
        } else {
            0
        },
    decreases t.len(),
{
    broadcast use group_to_multiset_ensures;

    if t.len() == 0 {
        assert(t =~= Seq::empty());
        assert(m =~= Seq::empty());
    } else {
        lemma_marks_count(t.drop_last(), m.drop_last(), item);
        assert(m.drop_last().push(m.last()) =~= m);
        assert(t.drop_last().push(t.last()) =~= t);
        lemma_code(t.last());
        if item.0 < CODES {
            lemma_number(item.0 as int);
        }
    }
}

/// Images that hold every colour equally often have one histogram, whatever the order
/// of their pixels.
pub proof fn lemma_order_of_pixels(p: Seq<u8>, q: Seq<u8>)
    requires
        triples(p).to_multiset() == triples(q).to_multiset(),
    ensures
        histogram(p) == histogram(q),
        p.len() / 3 == q.len() / 3,
{
    broadcast use group_to_multiset_ensures;

    assert(triples(p).to_multiset().len() == triples(p).len());
    assert(triples(q).to_multiset().len() == triples(q).len());
    let (a, b) = (marks(p), marks(q));
    assert forall|item: (u32, u64)| a.to_multiset().count(item) == b.to_multiset().count(item) by {
        lemma_marks_count(triples(p), a, item);
        lemma_marks_count(triples(q), b, item);
    }
    assert(a.to_multiset() =~= b.to_multiset());
    lemma_same_order(a, b);
}

/// Images that hold every colour equally often get one palette, whatever the order of
/// their pixels.
pub proof fn lemma_palette_ignores_order(p: Seq<u8>, q: Seq<u8>, size: int)
    requires
        triples(p).to_multiset() == triples(q).to_multiset(),
    ensures
        palette_of(p, size) == palette_of(q, size),
{
    lemma_order_of_pixels(p, q);
}

/// What a palette is: one to as many entries as asked for, in strictly rising order.
/// Without pixels it is black alone. With no more colours than it may have entries, it
/// has exactly the colours of the image.
pub proof fn lemma_palette(pixels: Seq<u8>, size: int, entries: Seq<[u8; 3]>)
    requires
        codes(entries) == palette_of(pixels, size),
    ensures
        1 <= entries.len() <= clamp(size, 2, 256),
        forall|i: int, j: int| 0 <= i < j < entries.len() ==> code(entries[i]) < code(entries[j]),
        triples(pixels).len() == 0 ==> entries == seq![[0u8, 0u8, 0u8]],
        0 < triples(pixels).to_set().len() <= clamp(size, 2, 256) ==> forall|e: [u8; 3]|
            entries.contains(e) <==> triples(pixels).contains(e),
{
    let all = codes(entries);
    assert(all.len() == entries.len());
    lemma_palette_size(pixels, size);
    assert forall|i: int, j: int| 0 <= i < j < entries.len() implies code(entries[i]) < code(entries[j]) by {
        assert(all[i] == code(entries[i]) && all[j] == code(entries[j]));
        lemma_palette_rises(pixels, size, i, j);
    }
    if triples(pixels).len() == 0 {
        assert(all[0] == code(entries[0]));
        lemma_code(entries[0]);
        lemma_code([0u8, 0u8, 0u8]);
        assert(entries =~= seq![[0u8, 0u8, 0u8]]);
    }
    lemma_histogram_counts_colours(pixels);
    if 0 < triples(pixels).to_set().len() <= clamp(size, 2, 256) {
        lemma_histogram(pixels);
        assert forall|e: [u8; 3]| entries.contains(e) <==> triples(pixels).contains(e) by {
            if entries.contains(e) {
                let k = choose|k: int| 0 <= k < entries.len() && entries[k] == e;
                lemma_few_colours_are_all(pixels, size, entries, k);
            }
            if triples(pixels).contains(e) {
                let i = choose|i: int| 0 <= i < triples(pixels).len() && triples(pixels)[i] == e;
                lemma_few_colours_are_exact(pixels, size, entries, i);
            }
        }
    }
}

/// A channel of a colour's number is that channel of the colour.
pub proof fn lemma_channel_is_the_byte(entry: [u8; 3], c: int)
    requires
        0 <= c < 3,
    ensures
        channel(code(entry), c) == entry@[c],
{
}

/// The spread of a channel is the greatest difference of two colours in it: no two differ
/// by more, and some two differ by that much.
pub proof fn lemma_extent_is_the_spread(items: Seq<(u32, u64)>, c: int)
    requires
        colours_only(items),
        items.len() > 0,
    ensures
        forall|i: int, j: int|
            0 <= i < items.len() && 0 <= j < items.len() ==> channel(#[trigger] items[i].0 as int, c) - channel(
                #[trigger] items[j].0 as int,
                c,
            ) <= extent(items, c),
        exists|i: int, j: int|
            0 <= i < items.len() && 0 <= j < items.len() && channel(#[trigger] items[i].0 as int, c) - channel(
                #[trigger] items[j].0 as int,
                c,
            ) == extent(items, c),
{
    lemma_ends(items, c);
    let i = choose|i: int| 0 <= i < items.len() && channel((#[trigger] items[i]).0 as int, c) == highest(items, c);
    let j = choose|j: int| 0 <= j < items.len() && channel((#[trigger] items[j]).0 as int, c) == lowest(items, c);
    assert(channel(items[i].0 as int, c) - channel(items[j].0 as int, c) == extent(items, c));
}

/// The least and the greatest value of a channel bound every colour's, and are some
/// colour's.
pub proof fn lemma_ends(items: Seq<(u32, u64)>, c: int)
    requires
        colours_only(items),
        items.len() > 0,
    ensures
        forall|i: int|
            0 <= i < items.len() ==> lowest(items, c) <= channel((#[trigger] items[i]).0 as int, c) <= highest(items, c),
        exists|i: int| 0 <= i < items.len() && channel((#[trigger] items[i]).0 as int, c) == highest(items, c),
        exists|j: int| 0 <= j < items.len() && channel((#[trigger] items[j]).0 as int, c) == lowest(items, c),
    decreases items.len(),
{
    let front = items.drop_last();
    let last = items[items.len() - 1];
    lemma_channel(last.0 as int, c);
    assert forall|i: int| 0 <= i < front.len() implies front[i] == items[i] by {}
    if front.len() > 0 {
        lemma_ends(front, c);
        let i = choose|i: int| 0 <= i < front.len() && channel((#[trigger] front[i]).0 as int, c) == highest(front, c);
        let j = choose|j: int| 0 <= j < front.len() && channel((#[trigger] front[j]).0 as int, c) == lowest(front, c);
        assert(items[i] == front[i] && items[j] == front[j]);
        assert forall|k: int| 0 <= k < items.len() implies lowest(items, c) <= channel((#[trigger] items[k]).0 as int, c)
            <= highest(items, c) by {
            if k < front.len() {
                assert(front[k] == items[k]);
            }
        }
        if highest(items, c) == highest(front, c) {
            assert(channel(items[i].0 as int, c) == highest(items, c));
        } else {
            assert(channel(items[items.len() - 1].0 as int, c) == highest(items, c));
        }
        if lowest(items, c) == lowest(front, c) {
            assert(channel(items[j].0 as int, c) == lowest(items, c));
        } else {
            assert(channel(items[items.len() - 1].0 as int, c) == lowest(items, c));
        }
    } else {
        assert(channel(items[0].0 as int, c) == highest(items, c));
        assert(channel(items[0].0 as int, c) == lowest(items, c));
    }
}

/// The widest channel spreads at least as far as every other, and further than those
/// before it.
pub proof fn lemma_widest(items: Seq<(u32, u64)>, c: int)
    requires
        0 <= c < 3,
    ensures
        0 <= widest(items) < 3,
        extent(items, widest(items)) >= extent(items, c),
        c < widest(items) ==> extent(items, widest(items)) > extent(items, c),
{
}

/// Arranging puts the colours of a box in the order of a channel, and those that are equal
/// in it in the order of their numbers; it keeps each colour with its count.
pub proof fn lemma_arranged_by_channel(items: Seq<(u32, u64)>, c: int, i: int, j: int)
    requires
        colours_only(items),
        0 <= i < j < items.len(),
    ensures
        ({
            let a = arranged(items, c);
            let (x, y) = (channel(a[i].0 as int, c), channel(a[j].0 as int, c));
            &&& a.len() == items.len()
            &&& x < y || (x == y && a[i].0 <= a[j].0)
            &&& items.contains(a[i])
            &&& items.contains(a[j])
        }),
{
    let k = keyed(items, c);
    let o = ordered(k);
    lemma_ordered(k);
    assert(by_key()(o[i], o[j]));
    lemma_keyed_back(items, c, i);
    lemma_keyed_back(items, c, j);
}

/// An item of an arranged box is one of the box.
proof fn lemma_keyed_back(items: Seq<(u32, u64)>, c: int, i: int)
    requires
        colours_only(items),
        0 <= i < items.len(),
    ensures
        ({
            let (a, o) = (arranged(items, c), ordered(keyed(items, c)));
            &&& a.len() == items.len()
            &&& o.len() == items.len()
            &&& items.contains(a[i])
            &&& a[i].0 < CODES
            &&& o[i].0 == channel(a[i].0 as int, c) * CODES + a[i].0
        }),
{
    let k = keyed(items, c);
    let o = ordered(k);
    lemma_ordered(k);
    lemma_ordered_holds(k, o[i]);
    assert(o.contains(o[i]));
    let n = choose|n: int| 0 <= n < k.len() && k[n] == o[i];
    let code = items[n].0 as int;
    lemma_channel(code, c);
    let (v, all) = (channel(code, c), CODES as int);
    assert(0 <= v * all <= 255 * 0x100_0000 && (v * all + code) % all == code) by (nonlinear_arith)
        requires
            0 <= v <= 255,
            0 <= code < all,
            all == 0x100_0000,
    ;
    assert(arranged(items, c)[i] == items[n]);
}

/// A box is split at the median of its widest channel: no colour of the first part is
/// above one of the second in that channel; the first part holds half of the pixels, or
/// all colours but one; and without its last colour it holds less than half, or nothing.
pub proof fn lemma_split_at_the_median(items: Seq<(u32, u64)>, i: int, j: int)
    requires
        items.len() > 1,
        colours_only(items),
        0 <= i < halves(items).0.len(),
        0 <= j < halves(items).1.len(),
    ensures
        ({
            let (low, high) = halves(items);
            let c = widest(items);
            &&& channel(low[i].0 as int, c) <= channel(high[j].0 as int, c)
            &&& items.contains(low[i])
            &&& items.contains(high[j])
            &&& weight(low) >= weight(items) / 2 || high.len() == 1
            &&& weight(low.drop_last()) < weight(items) / 2 || low.len() == 1
        }),
{
    let c = widest(items);
    let a = arranged(items, c);
    let half = weight(items) / 2;
    let at = split_point(a, half);
    let (low, high) = halves(items);
    lemma_arranged(items, c);
    lemma_reach(a, half, 0);
    lemma_reach_is_first(a, half, 0);
    lemma_arranged_by_channel(items, c, i, at + j);
    assert(low[i] == a[i] && high[j] == a[at + j]);
    let r = reach(a, half, 0);
    assert(low.drop_last() =~= a.take(at - 1));
    if r < a.len() - 1 {
        assert(at == r + 1);
        assert(low =~= a.take(r + 1));
    } else {
        assert(at == a.len() - 1);
        assert(at - 1 < r);
    }
    if at - 1 > 0 {
        assert(weight(a.take(at - 1)) < half) by {
            assert(at - 2 < r);
            assert(weight(a.take(at - 2 + 1)) < half);
        }
    }
}

/// The half is first reached where it is said to be.
proof fn lemma_reach_is_first(items: Seq<(u32, u64)>, half: int, i: int)
    requires
        0 <= i < items.len(),
    ensures
        ({
            let r = reach(items, half, i);
            &&& r < items.len() - 1 ==> weight(items.take(r + 1)) >= half
            &&& forall|k: int| i <= k < r ==> weight(#[trigger] items.take(k + 1)) < half
        }),
    decreases items.len() - i,
{
    if i < items.len() - 1 && weight(items.take(i + 1)) < half {
        lemma_reach(items, half, i + 1);
        lemma_reach_is_first(items, half, i + 1);
        let r = reach(items, half, i);
        assert forall|k: int| i <= k < r implies weight(#[trigger] items.take(k + 1)) < half by {
            if k > i {
                assert(weight(items.take(k + 1)) < half);
            }
        }
    }
}

/// A channel of some colours added up, each as often as it is counted.
pub open spec fn channel_sum(items: Seq<(u32, u64)>, c: int) -> int {
    items.fold_left(0int, |sum: int, item: (u32, u64)| (sum + colour(item.0 as int)@[c] * item.1) as int)
}

/// The mean of a channel is the whole number nearest to what its pixels add up to over how
/// many they are, and lies between the least and the greatest of them.
pub proof fn lemma_mean_is_nearest(items: Seq<(u32, u64)>, c: int)
    requires
        colours_only(items),
        0 <= c < 3,
        weight(items) > 0,
    ensures
        -weight(items) <= 2 * weight(items) * mean(items, c) - 2 * channel_sum(items, c) <= weight(items),
        lowest(items, c) <= mean(items, c) <= highest(items, c),
{
    let (t, w) = (channel_total(items, c), weight(items));
    lemma_channel_sum(items, c);
    lemma_channel_total(items, c);
    lemma_total_between(items, c);
    let (lo, hi) = (lowest(items, c), highest(items, c));
    let m = (t + w / 2) / w;
    assert(items.len() > 0);
    lemma_ends(items, c);
    let at = choose|i: int| 0 <= i < items.len() && channel((#[trigger] items[i]).0 as int, c) == hi;
    lemma_channel(items[at].0 as int, c);
    assert(lo <= m <= hi) by (nonlinear_arith)
        requires
            m == (t + w / 2) / w,
            lo * w <= t <= hi * w,
            w > 0,
    ;
    assert(-w <= 2 * w * m - 2 * t <= w) by (nonlinear_arith)
        requires
            m == (t + w / 2) / w,
            w > 0,
    ;
    assert(mean(items, c) == m);
}

/// A channel over all pixels is what its colours add up to.
proof fn lemma_channel_sum(items: Seq<(u32, u64)>, c: int)
    requires
        colours_only(items),
        0 <= c < 3,
    ensures
        channel_total(items, c) == channel_sum(items, c),
    decreases items.len(),
{
    if items.len() > 0 {
        lemma_channel_sum(items.drop_last(), c);
        let code = items[items.len() - 1].0 as int;
        lemma_channel(code, c);
        assert(colour(code)@[c] == channel(code, c));
    }
}

/// A channel over all pixels is between what the least and the greatest would add up to.
proof fn lemma_total_between(items: Seq<(u32, u64)>, c: int)
    requires
        colours_only(items),
    ensures
        lowest(items, c) * weight(items) <= channel_total(items, c) <= highest(items, c) * weight(items),
    decreases items.len(),
{
    if items.len() > 0 {
        let front = items.drop_last();
        let last = items[items.len() - 1];
        lemma_total_between(front, c);
        lemma_channel(last.0 as int, c);
        lemma_weight_split(items, items.len() - 1);
        assert(items.take(items.len() - 1) =~= front);
        let (v, n, w) = (channel(last.0 as int, c), last.1 as int, weight(front));
        let (a, b, x, y) = (lowest(items, c), highest(items, c), lowest(front, c), highest(front, c));
        let t = channel_total(front, c);
        assert(a * (w + n) <= t + v * n <= b * (w + n)) by (nonlinear_arith)
            requires
                x * w <= t <= y * w,
                a <= x,
                a <= v,
                y <= b,
                v <= b,
                w >= 0,
                n >= 0,
        ;
    } else {
        assert(lowest(items, c) * 0 == 0 && highest(items, c) * 0 == 0) by (nonlinear_arith);
    }
}

/// The box that is split has more than one colour, and of such boxes the most pixels; of
/// those with as many, the widest spread; of those as wide, it is the last.
pub proof fn lemma_heaviest_is_split(boxes: Seq<Seq<(u32, u64)>>, j: int)
    requires
        candidate(boxes) is Some,
        0 <= j < boxes.len(),
        boxes[j].len() > 1,
    ensures
        ({
            let k = candidate(boxes)->0;
            let (w, v) = (weight(boxes[k]), weight(boxes[j]));
            let (s, t) = (spread(boxes[k]), spread(boxes[j]));
            &&& 0 <= k < boxes.len()
            &&& boxes[k].len() > 1
            &&& w >= v
            &&& w == v ==> s >= t
            &&& w == v && s == t ==> k >= j
        }),
    decreases boxes.len(),
{
    lemma_candidate(boxes);
    let front = boxes.drop_last();
    lemma_candidate(front);
    if j < front.len() {
        assert(front[j] == boxes[j]);
        if candidate(front) is Some {
            lemma_heaviest_is_split(front, j);
        }
        let k = candidate(boxes)->0;
        if k < front.len() {
            assert(front[k] == boxes[k]);
        }
    }
}

/// Splitting goes on until there are as many boxes as asked for, or none that has more
/// than one colour.
pub proof fn lemma_cut_goes_on(boxes: Seq<Seq<(u32, u64)>>, size: int, j: int)
    requires
        1 <= boxes.len() <= size,
        0 <= j < cut(boxes, size).len(),
    ensures
        cut(boxes, size).len() <= size,
        cut(boxes, size).len() == size || cut(boxes, size)[j].len() <= 1,
    decreases size - boxes.len(),
{
    lemma_cut_len(boxes, size);
    if boxes.len() < size {
        lemma_candidate(boxes);
        if let Some(k) = candidate(boxes) {
            lemma_cut_goes_on(parted(boxes, k), size, j);
        }
    }
}

} // verus!
