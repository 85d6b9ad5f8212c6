//! What holds of a file's boxes and items, byte by byte: where boxes lie, which entry a
//! lookup finds, and what the bytes of a property, an item and a picture are.
use super::boxes::{be, box_at, boxes_in, first_of, lemma_be, lemma_box_progress, BoxAt, UUID};
use super::container::{format_of, InfoAt};
use super::decoder::{byte_at, interleaved};
use super::meta::{first_image, item_of, joined_bytes, place_of, primary_of, total_length, Extent, ItemAt, PlaceAt};
use super::props::{association_at, config_at, last_mirror, last_rotation, named, properties_of, property_at, Extents, Link, Prop, Subsampling, ISPE};
use crate::av1::plane::Samples;
use vstd::prelude::*;

verus! {

/// Numbers are read with their high byte first.
pub proof fn lemma_high_byte_first(f: Seq<u8>, pos: int, n: int)
    requires
        n >= 0,
    ensures
        be(f, pos, 1) == f[pos],
        be(f, pos, n + 1) == 256 * be(f, pos, n) + f[pos + n],
        be(f, pos, 2) == 256 * f[pos] + f[pos + 1],
        be(f, pos, 4) == 0x100_0000 * f[pos] + 0x1_0000 * f[pos + 1] + 256 * f[pos + 2] + f[pos + 3],
{
    lemma_be(f, pos);
    lemma_be(f, pos + 2);
}

/// A box of up to four gigabytes is eight bytes of header, its size with the header and its
/// type, and then its payload. A size of zero takes all there is; a size of one is followed
/// by a longer one.
pub proof fn lemma_box_lies(f: Seq<u8>, pos: int, end: int, n: int)
    requires
        0 <= pos,
        pos + 8 <= end <= f.len(),
        0 <= n,
        f.subrange(pos + 4, pos + 8) != UUID@,
    ensures
        be(f, pos, 4) == 8 + n && pos + 8 + n <= end ==> box_at(f, pos, end) == Some(
            BoxAt { kind: f.subrange(pos + 4, pos + 8), start: pos + 8, end: pos + 8 + n },
        ),
        be(f, pos, 4) == 8 + n && pos + 8 + n > end ==> box_at(f, pos, end) is None,
        be(f, pos, 4) == 0 ==> box_at(f, pos, end) == Some(
            BoxAt { kind: f.subrange(pos + 4, pos + 8), start: pos + 8, end },
        ),
        be(f, pos, 4) == 1 && be(f, pos + 8, 8) == 16 + n && pos + 16 + n <= end ==> box_at(f, pos, end) == Some(
            BoxAt { kind: f.subrange(pos + 4, pos + 8), start: pos + 16, end: pos + 16 + n },
        ),
        2 <= be(f, pos, 4) < 8 ==> box_at(f, pos, end) is None,
{
}

/// Boxes lie one behind the other without a gap: the first where the range starts, each next
/// one where the one before it ends, and behind the last there is no room for another.
pub proof fn lemma_boxes_lie_in_a_row(f: Seq<u8>, pos: int, end: int, i: int)
    requires
        boxes_in(f, pos, end) is Some,
        0 <= i < (boxes_in(f, pos, end)->0).len(),
    ensures
        ({
            let b = boxes_in(f, pos, end)->0;
            let from = if i == 0 {
                pos
            } else {
                b[i - 1].end
            };
            &&& box_at(f, from, end) == Some(b[i])
            &&& b[i].kind == f.subrange(from + 4, from + 8)
            &&& pos <= from
            &&& from < b[i].end <= end
            &&& i == b.len() - 1 ==> end - b[i].end < 8
        }),
    decreases end - pos,
{
    let b = boxes_in(f, pos, end)->0;
    lemma_box_progress(f, pos, end);
    let first = box_at(f, pos, end)->0;
    let rest = boxes_in(f, first.end, end)->0;
    assert(b == seq![first] + rest);
    if i > 0 {
        assert(b[i] == rest[i - 1]);
        lemma_boxes_lie_in_a_row(f, first.end, end, i - 1);
        if i > 1 {
            assert(b[i - 1] == rest[i - 2]);
        }
    } else if b.len() == 1 {
        assert(rest.len() == 0);
        if end - first.end >= 8 {
            lemma_boxes_are_some(f, first.end, end);
        }
    }
}

/// A range with room for a box has one.
proof fn lemma_boxes_are_some(f: Seq<u8>, pos: int, end: int)
    requires
        end - pos >= 8,
        boxes_in(f, pos, end) is Some,
    ensures
        (boxes_in(f, pos, end)->0).len() > 0,
{
}

/// A search finds the first box of a type: a box of the range that has the type, and none
/// before it does. It finds none only where there is none.
pub proof fn lemma_first_of_is_first(f: Seq<u8>, pos: int, end: int, kind: Seq<u8>)
    requires
        boxes_in(f, pos, end) is Some,
    ensures
        ({
            let b = boxes_in(f, pos, end)->0;
            match first_of(f, pos, end, kind) {
                None => false,
                Some(None) => forall|i: int| 0 <= i < b.len() ==> (#[trigger] b[i]).kind != kind,
                Some(Some(found)) => exists|i: int|
                    0 <= i < b.len() && #[trigger] b[i] == found && found.kind == kind && (forall|j: int|
                        0 <= j < i ==> (#[trigger] b[j]).kind != kind),
            }
        }),
    decreases end - pos,
{
    if end - pos >= 8 {
        let b = boxes_in(f, pos, end)->0;
        let first = box_at(f, pos, end)->0;
        lemma_box_progress(f, pos, end);
        let rest = boxes_in(f, first.end, end)->0;
        assert(b == seq![first] + rest);
        assert(b[0] == first);
        if first.kind != kind {
            lemma_first_of_is_first(f, first.end, end, kind);
            assert forall|i: int| 0 <= i < rest.len() implies #[trigger] rest[i] == b[i + 1] by {}
            match first_of(f, first.end, end, kind) {
                Some(Some(found)) => {
                    let i = choose|i: int|
                        0 <= i < rest.len() && #[trigger] rest[i] == found && found.kind == kind && (forall|j: int|
                            0 <= j < i ==> (#[trigger] rest[j]).kind != kind);
                    assert(b[i + 1] == found);
                    assert forall|j: int| 0 <= j < i + 1 implies (#[trigger] b[j]).kind != kind by {
                        if j > 0 {
                            assert(rest[j - 1] == b[j]);
                        }
                    }
                },
                _ => {
                    assert forall|i: int| 0 <= i < b.len() implies (#[trigger] b[i]).kind != kind by {
                        if i > 0 {
                            assert(rest[i - 1] == b[i]);
                        }
                    }
                },
            }
        }
    }
}

/// The fields of an AV1 configuration stand in its second and third byte: the profile above
/// the level; then the tier, whether there are more than eight bits and whether twelve,
/// whether there is no chroma, how it is sampled across and down, and its position.
pub proof fn lemma_config_fields(
    f: Seq<u8>,
    pos: int,
    end: int,
    profile: int,
    level: int,
    tier: int,
    high: bool,
    twelve: bool,
    mono: bool,
    across: bool,
    down: bool,
    position: int,
)
    requires
        0 <= pos,
        pos + 4 <= end <= f.len(),
        f[pos] == 0x81,
        0 <= profile < 8,
        0 <= level < 32,
        0 <= tier < 2,
        0 <= position < 4,
        f[pos + 1] == 32 * profile + level,
        f[pos + 2] == 128 * tier + (if high {
            64int
        } else {
            0
        }) + (if twelve {
            32int
        } else {
            0
        }) + (if mono {
            16int
        } else {
            0
        }) + (if across {
            8int
        } else {
            0
        }) + (if down {
            4int
        } else {
            0
        }) + position,
    ensures
        ({
            let r = config_at(f, pos, end);
            &&& r is None <==> !mono && !across && down
            &&& r matches Some(c) ==> {
                &&& c.profile == profile
                &&& c.level == level
                &&& c.tier == tier
                &&& c.position == position
                &&& c.obus == f.subrange(pos + 4, end)
                &&& !high ==> c.depth == 8
                &&& high && profile == 2 && twelve ==> c.depth == 12
                &&& high && !(profile == 2 && twelve) ==> c.depth == 10
                &&& mono ==> c.subsampling == Subsampling::Monochrome
                &&& !mono && across && down ==> c.subsampling == Subsampling::Yuv420
                &&& !mono && across && !down ==> c.subsampling == Subsampling::Yuv422
                &&& !mono && !across ==> c.subsampling == Subsampling::Yuv444
            }
        }),
{
    let c = f[pos + 2] as int;
    assert(c / 128 == tier);
    assert((c / 64 % 2 == 1) == high);
    assert((c / 32 % 2 == 1) == twelve);
    assert((c / 16 % 2 == 1) == mono);
    assert((c / 8 % 2 == 1) == across);
    assert((c / 4 % 2 == 1) == down);
    assert(c % 4 == position);
}

/// The dimensions of an item are two numbers of four bytes behind a version.
pub proof fn lemma_dimension_fields(f: Seq<u8>, pos: int, end: int)
    requires
        pos + 12 <= end,
    ensures
        property_at(ISPE@, f, pos, end) matches Some(Prop::Extents(e)) && e.width == 0x100_0000 * f[pos + 4] + 0x1_0000 * f[pos
            + 5] + 256 * f[pos + 6] + f[pos + 7] && e.height == 0x100_0000 * f[pos + 8] + 0x1_0000 * f[pos + 9] + 256 * f[pos
            + 10] + f[pos + 11],
{
    reveal(property_at);
    lemma_high_byte_first(f, pos + 4, 4);
    lemma_high_byte_first(f, pos + 8, 4);
}

/// An association's highest bit says whether it is essential, and the others which property
/// it is to, counted from one.
pub proof fn lemma_association_fields(f: Seq<u8>, pos: int, index: int, essential: bool, entries: Seq<Prop>, item: u32)
    requires
        0 <= index < 0x8000,
    ensures
        f[pos] == index + (if essential {
            128int
        } else {
            0
        }) && index < 128 ==> association_at(f, pos, false).index == index && association_at(f, pos, false).essential
            == essential,
        256 * f[pos] + f[pos + 1] == index + (if essential {
            0x8000int
        } else {
            0
        }) ==> association_at(f, pos, true).index == index && association_at(f, pos, true).essential == essential,
        ({
            let link = Link { item, to: association_at(f, pos, true) };
            &&& link.to.index == 0 ==> named(entries, link) is None
            &&& 1 <= link.to.index <= entries.len() ==> named(entries, link) == Some(entries[link.to.index - 1])
            &&& link.to.index > entries.len() ==> named(entries, link) is None
        }),
{
    lemma_be(f, pos);
}

/// An item has the properties that its links name, in their order; the links of other items
/// add nothing.
pub proof fn lemma_properties_follow_links(entries: Seq<Prop>, links: Seq<Link>, more: Seq<Link>, item: u32)
    ensures
        properties_of(entries, links + more, item) == properties_of(entries, links, item) + properties_of(entries, more, item),
        (forall|i: int| 0 <= i < links.len() ==> (#[trigger] links[i]).item != item) ==> properties_of(entries, links, item)
            == Seq::<Prop>::empty(),
        links.len() == 1 && links[0].item == item && 1 <= links[0].to.index <= entries.len() ==> properties_of(
            entries,
            links,
            item,
        ) == seq![entries[links[0].to.index - 1]],
    decreases links.len() + more.len(),
{
    if more.len() == 0 {
        assert(links + more =~= links);
        assert(properties_of(entries, links, item) + Seq::<Prop>::empty() =~= properties_of(entries, links, item));
    } else {
        lemma_properties_follow_links(entries, links, more.drop_last(), item);
        assert((links + more).drop_last() =~= links + more.drop_last());
        assert((links + more).last() == more.last());
        assert(properties_of(entries, links + more, item) =~= properties_of(entries, links, item) + properties_of(
            entries,
            more,
            item,
        ));
    }
    if links.len() > 0 {
        let none = Seq::<Link>::empty();
        if forall|i: int| 0 <= i < links.len() ==> (#[trigger] links[i]).item != item {
            let front = links.drop_last();
            assert forall|i: int| 0 <= i < front.len() implies (#[trigger] front[i]).item != item by {
                assert(links[i] == front[i]);
            }
            lemma_properties_follow_links(entries, front, none, item);
            assert(links[links.len() - 1].item != item);
        }
        if links.len() == 1 {
            assert(links.drop_last() =~= none);
            assert(properties_of(entries, none, item) == Seq::<Prop>::empty());
            assert(properties_of(entries, links, item) =~= if links[0].item == item && 1 <= links[0].to.index
                <= entries.len() {
                seq![entries[links[0].to.index - 1]]
            } else {
                Seq::<Prop>::empty()
            });
        }
    }
}

/// Of several rotations, and of several mirrorings, the last counts.
pub proof fn lemma_last_turn_counts(props: Seq<Prop>, i: int)
    requires
        0 <= i < props.len(),
    ensures
        props[i] is Rotation && (forall|j: int| i < j < props.len() ==> !((#[trigger] props[j]) is Rotation)) ==> last_rotation(
            props,
        ) == props[i]->Rotation_0,
        props[i] is Mirror && (forall|j: int| i < j < props.len() ==> !((#[trigger] props[j]) is Mirror)) ==> last_mirror(
            props,
        ) == Some(props[i]->Mirror_0),
        (forall|j: int| 0 <= j < props.len() ==> !((#[trigger] props[j]) is Rotation)) ==> last_rotation(props) == 0,
        (forall|j: int| 0 <= j < props.len() ==> !((#[trigger] props[j]) is Mirror)) ==> last_mirror(props) is None,
    decreases props.len(),
{
    let front = props.drop_last();
    let last = props[props.len() - 1];
    assert forall|j: int| 0 <= j < front.len() implies front[j] == props[j] by {}
    if front.len() > 0 {
        lemma_last_turn_counts(
            front,
            if i < front.len() {
                i
            } else {
                0
            },
        );
    } else {
        assert(last_rotation(front) == 0 && last_mirror(front) is None);
    }
}

/// A lookup by identifier finds the first that has it, and finds none only where none has it.
pub proof fn lemma_lookups_find_the_first(items: Seq<ItemAt>, places: Seq<PlaceAt>, id: int, i: int)
    ensures
        0 <= i < items.len() && items[i].id == id && (forall|j: int| 0 <= j < i ==> (#[trigger] items[j]).id != id) ==> item_of(
            items,
            id,
        ) == Some(items[i]),
        (forall|j: int| 0 <= j < items.len() ==> (#[trigger] items[j]).id != id) ==> item_of(items, id) is None,
        0 <= i < items.len() && items[i].is_image() && (forall|j: int| 0 <= j < i ==> !(#[trigger] items[j]).is_image())
            ==> first_image(items) == Some(items[i]),
        (forall|j: int| 0 <= j < items.len() ==> !(#[trigger] items[j]).is_image()) ==> first_image(items) is None,
        0 <= i < places.len() && places[i].id == id && (forall|j: int| 0 <= j < i ==> (#[trigger] places[j]).id != id)
            ==> place_of(places, id) == Some(places[i]),
        (forall|j: int| 0 <= j < places.len() ==> (#[trigger] places[j]).id != id) ==> place_of(places, id) is None,
        item_of(items, id) is Some ==> primary_of(Some(id), items) == item_of(items, id),
        primary_of(None, items) == first_image(items),
    decreases items.len() + places.len(),
{
    let (m, p) = (items.skip(1), places.skip(1));
    if items.len() > 0 {
        assert forall|j: int| 0 <= j < m.len() implies m[j] == items[j + 1] by {}
        if forall|j: int| 0 <= j < items.len() ==> (#[trigger] items[j]).id != id {
            assert(items[0].id != id);
            assert forall|j: int| 0 <= j < m.len() implies (#[trigger] m[j]).id != id by {
                assert(m[j] == items[j + 1]);
            }
        }
        if forall|j: int| 0 <= j < items.len() ==> !(#[trigger] items[j]).is_image() {
            assert(!items[0].is_image());
            assert forall|j: int| 0 <= j < m.len() implies !(#[trigger] m[j]).is_image() by {
                assert(m[j] == items[j + 1]);
            }
        }
        if 0 < i < items.len() {
            assert(items[i] == m[i - 1]);
            if forall|j: int| 0 <= j < i ==> (#[trigger] items[j]).id != id {
                assert(items[0].id != id);
                assert forall|j: int| 0 <= j < i - 1 implies (#[trigger] m[j]).id != id by {
                    assert(m[j] == items[j + 1]);
                }
            }
            if forall|j: int| 0 <= j < i ==> !(#[trigger] items[j]).is_image() {
                assert(!items[0].is_image());
                assert forall|j: int| 0 <= j < i - 1 implies !(#[trigger] m[j]).is_image() by {
                    assert(m[j] == items[j + 1]);
                }
            }
        }
    }
    if places.len() > 0 {
        if forall|j: int| 0 <= j < places.len() ==> (#[trigger] places[j]).id != id {
            assert(places[0].id != id);
            assert forall|j: int| 0 <= j < p.len() implies (#[trigger] p[j]).id != id by {
                assert(p[j] == places[j + 1]);
            }
        }
        if 0 < i < places.len() {
            assert(places[i] == p[i - 1]);
            if forall|j: int| 0 <= j < i ==> (#[trigger] places[j]).id != id {
                assert(places[0].id != id);
                assert forall|j: int| 0 <= j < i - 1 implies (#[trigger] p[j]).id != id by {
                    assert(p[j] == places[j + 1]);
                }
            }
        }
    }
    if items.len() > 0 && places.len() > 0 {
        lemma_lookups_find_the_first(m, p, id, i - 1);
    } else if items.len() > 0 {
        lemma_lookups_find_the_first(m, places, id, i - 1);
    } else if places.len() > 0 {
        lemma_lookups_find_the_first(items, p, id, i - 1);
    }
}

/// The bytes of an item are those of its extents, one after the other: a first extent comes
/// before the rest, and a single one is a part of the region.
pub proof fn lemma_extents_in_order(region: Seq<u8>, first: Seq<Extent>, then: Seq<Extent>)
    ensures
        joined_bytes(region, first + then) == joined_bytes(region, first) + joined_bytes(region, then),
        total_length(first + then) == total_length(first) + total_length(then),
        first.len() == 1 ==> joined_bytes(region, first) == region.subrange(
            first[0].offset as int,
            first[0].offset + first[0].length,
        ) && total_length(first) == first[0].length,
    decreases then.len(),
{
    if first.len() == 1 {
        assert(first.drop_last() =~= Seq::<Extent>::empty());
        let e = first[0];
        let part = region.subrange(e.offset as int, e.offset + e.length);
        assert(joined_bytes(region, first.drop_last()) == Seq::<u8>::empty());
        assert(joined_bytes(region, first) == joined_bytes(region, first.drop_last()) + part);
        assert(joined_bytes(region, first) =~= part);
        assert(total_length(first.drop_last()) == 0);
    }
    if then.len() == 0 {
        assert(first + then =~= first);
        assert(joined_bytes(region, first) + Seq::<u8>::empty() =~= joined_bytes(region, first));
    } else {
        lemma_extents_in_order(region, first, then.drop_last());
        assert((first + then).drop_last() =~= first + then.drop_last());
        assert((first + then).last() == then.last());
        let e = then.last();
        let part = region.subrange(e.offset as int, e.offset + e.length);
        assert(joined_bytes(region, first) + joined_bytes(region, then.drop_last()) + part =~= joined_bytes(region, first) + (
        joined_bytes(region, then.drop_last()) + part));
    }
}

/// A pixel of a picture is the sample of the third plane, then of the first, then of the
/// second at its place.
pub proof fn lemma_picture_pixels(planes: Seq<Samples>, width: int, height: int, x: int, y: int)
    requires
        0 <= x < width,
        0 <= y < height,
        planes.len() == 3,
    ensures
        ({
            let r = interleaved(planes, width, height);
            let at = 3 * (y * width + x);
            &&& r.len() == 3 * (width * height)
            &&& r[at] == byte_at(planes[2], x, y)
            &&& r[at + 1] == byte_at(planes[0], x, y)
            &&& r[at + 2] == byte_at(planes[1], x, y)
        }),
{
    let n = y * width + x;
    assert(0 <= n < width * height && n % width == x && n / width == y) by (nonlinear_arith)
        requires
            n == y * width + x,
            0 <= x < width,
            0 <= y < height,
    ;
    assert((3 * n) / 3 == n && (3 * n + 1) / 3 == n && (3 * n + 2) / 3 == n);
    assert((3 * n) % 3 == 0 && (3 * n + 1) % 3 == 1 && (3 * n + 2) % 3 == 2);
}

/// A picture's format has alpha where the image has, is gray where it has no chroma, and has
/// two bytes a sample from more than eight bits on; a gray one with alpha and two bytes a
/// sample has colour.
pub proof fn lemma_formats(info: InfoAt)
    ensures
        ({
            let p = format_of(info);
            let (gray, wide) = (info.config.subsampling is Monochrome, info.config.depth > 8);
            &&& p is Gray8 || p is Gray16 <==> gray && !info.has_alpha
            &&& p is GrayA8 <==> gray && info.has_alpha && !wide
            &&& p is Rgba8 || p is Rgba16 || p is GrayA8 <==> info.has_alpha
            &&& p is Gray16 || p is Rgb16 || p is Rgba16 <==> wide
        }),
{
}

} // verus!
