//! The item table: what items a file holds, where their bytes are, and how they
//! relate.
//!
//! A file is a small database of items, one of which is the primary one. An
//! ordinary image is one coded item. Transparency is a second coded item, joined
//! to the first by a reference; a large image may be a grid item that refers to
//! its tiles.
use super::boxes::{
    be, box_at, header_fault, lemma_be, read_fault, text_end, text_fault, width_fault, FourCc, Reader,
};
use super::props::{first_coded, gathered, gathered_fault, properties_of, Link, Prop, Properties, AUXC};
use crate::error::{malformed, unsupported, ErrorCode, Fault, Message, Outcome, PixelsError};
use crate::math::max;
use crate::text::{append_bytes, code_name, number};
use vstd::prelude::*;
use vstd::utf8::{decode_utf8, valid_utf8};

verus! {

/// The auxiliary type that marks an item as an alpha plane.
pub const URN_ALPHA: &'static str = "urn:mpeg:mpegB:cicp:systems:auxiliary:alpha";

/// An older name for the same.
pub const URN_ALPHA_LEGACY: &'static str = "urn:mpeg:hevc:2015:auxid:1";

/// `pitm`: the primary item.
pub const PITM: [u8; 4] = [0x70, 0x69, 0x74, 0x6D];

/// `iinf`: the items and their types.
pub const IINF: [u8; 4] = [0x69, 0x69, 0x6E, 0x66];

/// `infe`: one item and its type.
pub const INFE: [u8; 4] = [0x69, 0x6E, 0x66, 0x65];

/// `iloc`: where the items' bytes are.
pub const ILOC: [u8; 4] = [0x69, 0x6C, 0x6F, 0x63];

/// `iref`: how the items relate.
pub const IREF: [u8; 4] = [0x69, 0x72, 0x65, 0x66];

/// `iprp`: the items' properties.
pub const IPRP: [u8; 4] = [0x69, 0x70, 0x72, 0x70];

/// `idat`: bytes of small items.
pub const IDAT: [u8; 4] = [0x69, 0x64, 0x61, 0x74];

/// `av01`: a coded image.
pub const AV01: [u8; 4] = [0x61, 0x76, 0x30, 0x31];

/// `grid`: an image made of tiles.
pub const GRID: [u8; 4] = [0x67, 0x72, 0x69, 0x64];

/// `auxl`: the reference from an auxiliary item to the item it describes.
pub const AUXL: [u8; 4] = [0x61, 0x75, 0x78, 0x6C];

/// Where an item's bytes live.
#[derive(Debug, Clone, Copy, PartialEq, Eq, Structural)]
pub enum Construction {
    /// Offsets are absolute within the file.
    File,
    /// Offsets are relative to the data box of the item table.
    Idat,
    /// Offsets are relative to another item's data, which is not resolved.
    Item,
}

/// One run of an item's bytes.
#[derive(Debug, Clone, Copy, PartialEq, Eq, Structural)]
pub struct Extent {
    /// The offset, which the item's construction interprets.
    pub offset: u64,
    /// The length in bytes.
    pub length: u64,
}

/// One entry of the item table.
#[derive(Debug, Clone, PartialEq, Eq)]
pub struct Item {
    /// The item's identifier.
    pub id: u32,
    /// The item's type.
    pub kind: FourCc,
    /// The item's name.
    pub name: String,
    /// Whether the item is not displayed on its own.
    pub hidden: bool,
    /// How the extents are addressed.
    pub construction: Construction,
    /// The runs of bytes that make up the item, in order.
    pub extents: Vec<Extent>,
}

/// What an entry of the item table says.
#[verifier::ext_equal]
pub struct ItemAt {
    /// The item's identifier.
    pub id: int,
    /// The item's type.
    pub kind: Seq<u8>,
    /// The item's name.
    pub name: Seq<char>,
    /// Whether the item is hidden.
    pub hidden: bool,
    /// How the extents are addressed.
    pub construction: Construction,
    /// The extents.
    pub extents: Seq<Extent>,
}

impl View for Item {
    type V = ItemAt;

    open spec fn view(&self) -> ItemAt {
        ItemAt {
            id: self.id as int,
            kind: self.kind@,
            name: self.name@,
            hidden: self.hidden,
            construction: self.construction,
            extents: self.extents@,
        }
    }
}

impl ItemAt {
    /// Whether the item is an image: coded, or a grid.
    pub open spec fn is_image(self) -> bool {
        self.kind == AV01@ || self.kind == GRID@
    }
}

impl Item {
    /// Whether this item is a coded image.
    pub fn is_coded_image(&self) -> (r: bool)
        ensures
            r == (self@.kind == AV01@),
    {
        self.kind.is(&AV01)
    }

    /// Whether this item is a grid of tiles.
    pub fn is_grid(&self) -> (r: bool)
        ensures
            r == (self@.kind == GRID@),
    {
        self.kind.is(&GRID)
    }
}

/// A typed link from one item to others.
#[derive(Debug, Clone, PartialEq, Eq)]
pub struct Reference {
    /// The type of the reference.
    pub kind: FourCc,
    /// The item the reference is from.
    pub from: u32,
    /// The items it is to, in order.
    pub to: Vec<u32>,
}

/// What a reference says.
#[verifier::ext_equal]
pub struct ReferenceAt {
    /// The type of the reference.
    pub kind: Seq<u8>,
    /// The item the reference is from.
    pub from: int,
    /// The items it is to.
    pub to: Seq<u32>,
}

impl View for Reference {
    type V = ReferenceAt;

    open spec fn view(&self) -> ReferenceAt {
        ReferenceAt { kind: self.kind@, from: self.from as int, to: self.to@ }
    }
}

/// The primary item's identifier between `pos` and `end`: two bytes in version
/// zero, four later.
pub open spec fn primary_at(f: Seq<u8>, pos: int, end: int) -> Option<int> {
    let n = if be(f, pos, 4) / 0x100_0000 == 0 {
        2
    } else {
        4int
    };
    if pos + 4 + n <= end {
        Some(be(f, pos + 4, n))
    } else {
        None
    }
}

/// An item's identifier, type, name, and whether it is hidden.
#[verifier::ext_equal]
pub struct InfoAt {
    /// The identifier.
    pub id: int,
    /// The type.
    pub kind: Seq<u8>,
    /// The name.
    pub name: Seq<char>,
    /// Whether the item is hidden.
    pub hidden: bool,
}

/// The words of bytes between `pos` and `end` that name no primary item.
pub open spec fn primary_fault(f: Seq<u8>, pos: int, end: int) -> Seq<char> {
    if pos + 4 > end {
        read_fault(4, pos, end)
    } else if be(f, pos, 4) / 0x100_0000 == 0 {
        read_fault(2, pos + 4, end)
    } else {
        read_fault(4, pos + 4, end)
    }
}

/// The item information between `pos` and `end`. Versions before 2 have no type
/// and are malformed; the identifier is two bytes in version 2, four later.
pub open spec fn info_at(f: Seq<u8>, pos: int, end: int) -> Option<InfoAt> {
    let version = be(f, pos, 4) / 0x100_0000;
    let n = if version == 2 {
        2
    } else {
        4int
    };
    let p = pos + 4 + n + 2;
    let text = f.subrange(p + 4, text_end(f, p + 4, end));
    if pos + 4 > end || version < 2 || p + 4 > end || !valid_utf8(text) {
        None
    } else {
        Some(
            InfoAt {
                id: be(f, pos + 4, n),
                kind: f.subrange(p, p + 4),
                name: decode_utf8(text),
                hidden: be(f, pos, 4) % 2 == 1,
            },
        )
    }
}

/// The words of bytes between `pos` and `end` that are no item information.
pub open spec fn info_fault(f: Seq<u8>, pos: int, end: int) -> Seq<char> {
    let version = be(f, pos, 4) / 0x100_0000;
    let n = if version == 2 {
        2
    } else {
        4int
    };
    let p = pos + 4 + n + 2;
    if pos + 4 > end {
        read_fault(4, pos, end)
    } else if version < 2 {
        "infe version "@ + number(version) + " cannot carry an item type"@
    } else if pos + 4 + n > end {
        read_fault(n, pos + 4, end)
    } else if p > end {
        read_fault(2, pos + 4 + n, end)
    } else if p + 4 > end {
        read_fault(4, p, end)
    } else {
        text_fault()
    }
}

/// The item information boxes between `pos` and `end`; other boxes are passed over.
pub open spec fn infos_in(f: Seq<u8>, pos: int, end: int) -> Option<Seq<InfoAt>>
    decreases end - pos,
{
    if end - pos < 8 {
        Some(Seq::empty())
    } else {
        match box_at(f, pos, end) {
            None => None,
            Some(b) => match infos_in(f, b.end, end) {
                None => None,
                Some(rest) => if b.kind != INFE@ {
                    Some(rest)
                } else {
                    match info_at(f, b.start, b.end) {
                        None => None,
                        Some(i) => Some(seq![i] + rest),
                    }
                },
            },
        }
    }
}

/// The words of boxes between `pos` and `end` of which one is malformed.
pub open spec fn infos_in_fault(f: Seq<u8>, pos: int, end: int) -> Seq<char>
    decreases end - pos,
{
    if end - pos < 8 {
        Seq::empty()
    } else {
        match box_at(f, pos, end) {
            None => header_fault(f, pos, end),
            Some(b) => if b.kind == INFE@ && info_at(f, b.start, b.end) is None {
                info_fault(f, b.start, b.end)
            } else {
                infos_in_fault(f, b.end, end)
            },
        }
    }
}

/// The item type table between `pos` and `end`. A count that its bytes cannot
/// hold is malformed.
pub open spec fn infos_at(f: Seq<u8>, pos: int, end: int) -> Option<Seq<InfoAt>> {
    let n = if be(f, pos, 4) / 0x100_0000 == 0 {
        2
    } else {
        4int
    };
    if pos + 4 + n > end || be(f, pos + 4, n) * 8 > end - pos - 4 - n {
        None
    } else {
        infos_in(f, pos + 4 + n, end)
    }
}

/// The words of bytes between `pos` and `end` that are no item type table.
pub open spec fn infos_fault(f: Seq<u8>, pos: int, end: int) -> Seq<char> {
    let n = if be(f, pos, 4) / 0x100_0000 == 0 {
        2
    } else {
        4int
    };
    let count = be(f, pos + 4, n);
    if pos + 4 > end {
        read_fault(4, pos, end)
    } else if pos + 4 + n > end {
        read_fault(n, pos + 4, end)
    } else if count * 8 > end - pos - 4 - n {
        "iinf declares "@ + number(count) + " items, more than its "@ + number(end - pos - 4 - n)
            + " remaining bytes can hold"@
    } else {
        infos_in_fault(f, pos + 4 + n, end)
    }
}

/// The widths and the version of an item location table.
#[derive(Clone, Copy)]
pub struct Widths {
    /// The table's version.
    pub version: u8,
    /// The bytes of an extent's offset.
    pub offset: u8,
    /// The bytes of an extent's length.
    pub length: u8,
    /// The bytes of an item's base offset.
    pub base: u8,
    /// The bytes of an extent's index.
    pub index: u8,
}

/// Whether a number can have this many bytes.
pub open spec fn width_ok(n: int) -> bool {
    n == 0 || n == 4 || n == 8
}

/// One item's location.
#[verifier::ext_equal]
pub struct PlaceAt {
    /// The item's identifier.
    pub id: int,
    /// How the extents are addressed.
    pub construction: Construction,
    /// The extents.
    pub extents: Seq<Extent>,
}

/// `count` extents from `pos` on, and where they end. An offset that overflows
/// when the base is added is malformed.
pub open spec fn extents_at(f: Seq<u8>, pos: int, end: int, w: Widths, base: int, count: int) -> Option<
    (Seq<Extent>, int),
>
    decreases count,
{
    let p = pos + w.index;
    let q = p + w.offset;
    if count <= 0 {
        Some((Seq::empty(), pos))
    } else if (w.index > 0 && !width_ok(w.index as int)) || !width_ok(w.offset as int) || !width_ok(w.length as int)
        || q + w.length > end || base + be(f, p, w.offset as int) > u64::MAX {
        None
    } else {
        match extents_at(f, q + w.length, end, w, base, count - 1) {
            None => None,
            Some((rest, stop)) => Some(
                (
                    seq![
                        Extent {
                            offset: (base + be(f, p, w.offset as int)) as u64,
                            length: be(f, q, w.length as int) as u64,
                        },
                    ] + rest,
                    stop,
                ),
            ),
        }
    }
}

/// Whether a field of `n` bytes at `pos` can be read before `end`.
pub open spec fn field_fits(n: int, pos: int, end: int) -> bool {
    width_ok(n) && pos + n <= end
}

/// The words of extents of an item from `pos` on of which one is malformed.
pub open spec fn extents_fault(f: Seq<u8>, pos: int, end: int, w: Widths, base: int, count: int, id: int) -> Seq<char>
    decreases count,
{
    let p = pos + w.index;
    let q = p + w.offset;
    if count <= 0 {
        Seq::empty()
    } else if w.index > 0 && !field_fits(w.index as int, pos, end) {
        width_fault(w.index as int, pos, end)
    } else if !field_fits(w.offset as int, p, end) {
        width_fault(w.offset as int, p, end)
    } else if !field_fits(w.length as int, q, end) {
        width_fault(w.length as int, q, end)
    } else if base + be(f, p, w.offset as int) > u64::MAX {
        "item "@ + number(id) + " has an extent offset that overflows its base"@
    } else {
        extents_fault(f, q + w.length, end, w, base, count - 1, id)
    }
}

/// How an item's extents are addressed, by its coded method.
pub open spec fn construction_of(method: int) -> Option<Construction> {
    if method == 0 {
        Some(Construction::File)
    } else if method == 1 {
        Some(Construction::Idat)
    } else if method == 2 {
        Some(Construction::Item)
    } else {
        None
    }
}

/// The location of one item at `pos`, and where it ends.
pub open spec fn place_at(f: Seq<u8>, pos: int, end: int, w: Widths) -> Option<(PlaceAt, int)> {
    let n = if w.version < 2 {
        2
    } else {
        4int
    };
    let methods = w.version == 1 || w.version == 2;
    let p = pos + n + if methods {
        2int
    } else {
        0
    };
    let construction = if methods {
        construction_of(be(f, pos + n, 2) % 16)
    } else {
        Some(Construction::File)
    };
    let q = p + 2 + w.base;
    let count = be(f, q, 2);
    let each = max(w.offset + w.length + w.index, 1);
    if q + 2 > end || construction is None || !width_ok(w.base as int) || count * each > end - q - 2 {
        None
    } else {
        match extents_at(f, q + 2, end, w, be(f, p + 2, w.base as int), count) {
            None => None,
            Some((extents, stop)) => Some(
                (PlaceAt { id: be(f, pos, n), construction: construction->0, extents }, stop),
            ),
        }
    }
}

/// The words of bytes at `pos` that are no location of an item.
pub open spec fn place_fault(f: Seq<u8>, pos: int, end: int, w: Widths) -> Seq<char> {
    let n = if w.version < 2 {
        2
    } else {
        4int
    };
    let methods = w.version == 1 || w.version == 2;
    let p = pos + n + if methods {
        2int
    } else {
        0
    };
    let method = be(f, pos + n, 2) % 16;
    let id = be(f, pos, n);
    let q = p + 2 + w.base;
    let count = be(f, q, 2);
    let each = max(w.offset + w.length + w.index, 1);
    if pos + n > end {
        read_fault(n, pos, end)
    } else if p > end {
        read_fault(2, pos + n, end)
    } else if methods && construction_of(method) is None {
        "iloc construction method "@ + number(method) + " is not one this format defines"@
    } else if p + 2 > end {
        read_fault(2, p, end)
    } else if !field_fits(w.base as int, p + 2, end) {
        width_fault(w.base as int, p + 2, end)
    } else if q + 2 > end {
        read_fault(2, q, end)
    } else if count * each > end - q - 2 {
        "item "@ + number(id) + " declares "@ + number(count) + " extents, more than its "@ + number(end - q - 2)
            + " remaining bytes can hold"@
    } else {
        extents_fault(f, q + 2, end, w, be(f, p + 2, w.base as int), count, id)
    }
}

/// The locations of `count` items from `pos` on.
pub open spec fn places_from(f: Seq<u8>, pos: int, end: int, w: Widths, count: int) -> Option<Seq<PlaceAt>>
    decreases count,
{
    if count <= 0 {
        Some(Seq::empty())
    } else {
        match place_at(f, pos, end, w) {
            None => None,
            Some((place, stop)) => match places_from(f, stop, end, w, count - 1) {
                None => None,
                Some(rest) => Some(seq![place] + rest),
            },
        }
    }
}

/// The words of `count` locations of items from `pos` on of which one is malformed.
pub open spec fn places_from_fault(f: Seq<u8>, pos: int, end: int, w: Widths, count: int) -> Seq<char>
    decreases count,
{
    if count <= 0 {
        Seq::empty()
    } else {
        match place_at(f, pos, end, w) {
            None => place_fault(f, pos, end, w),
            Some((_, stop)) => places_from_fault(f, stop, end, w, count - 1),
        }
    }
}

/// The widths of the item location table at `pos`.
pub open spec fn widths_at(f: Seq<u8>, pos: int) -> Widths {
    let version = (be(f, pos, 4) / 0x100_0000) as u8;
    Widths {
        version,
        offset: (f[pos + 4] / 16) as u8,
        length: (f[pos + 4] % 16) as u8,
        base: (f[pos + 5] / 16) as u8,
        index: if version == 1 || version == 2 {
            (f[pos + 5] % 16) as u8
        } else {
            0
        },
    }
}

/// The item location table between `pos` and `end`. A version after 2, or a count
/// that its bytes cannot hold, is malformed.
pub open spec fn places_at(f: Seq<u8>, pos: int, end: int) -> Option<Seq<PlaceAt>> {
    let w = widths_at(f, pos);
    let n = if w.version < 2 {
        2
    } else {
        4int
    };
    if pos + 6 > end || w.version > 2 || pos + 6 + n > end || be(f, pos + 6, n) * 6 > end - pos - 6 - n {
        None
    } else {
        places_from(f, pos + 6 + n, end, w, be(f, pos + 6, n))
    }
}

/// The words of bytes between `pos` and `end` that are no item location table.
pub open spec fn places_fault(f: Seq<u8>, pos: int, end: int) -> Seq<char> {
    let w = widths_at(f, pos);
    let n = if w.version < 2 {
        2
    } else {
        4int
    };
    let count = be(f, pos + 6, n);
    if pos + 4 > end {
        read_fault(4, pos, end)
    } else if pos + 5 > end {
        read_fault(1, pos + 4, end)
    } else if pos + 6 > end {
        read_fault(1, pos + 5, end)
    } else if w.version > 2 {
        "iloc version "@ + number(w.version as int) + " is not one this format defines"@
    } else if pos + 6 + n > end {
        read_fault(n, pos + 6, end)
    } else if count * 6 > end - pos - 6 - n {
        "iloc declares "@ + number(count) + " items, more than its "@ + number(end - pos - 6 - n)
            + " remaining bytes can hold"@
    } else {
        places_from_fault(f, pos + 6 + n, end, w, count)
    }
}

/// The reference in a box between `pos` and `end`. A count that its bytes cannot
/// hold is malformed.
pub open spec fn reference_at(kind: Seq<u8>, f: Seq<u8>, pos: int, end: int, n: int) -> Option<ReferenceAt> {
    let count = be(f, pos + n, 2);
    if pos + n + 2 > end || count * n > end - pos - n - 2 {
        None
    } else {
        Some(
            ReferenceAt {
                kind,
                from: be(f, pos, n),
                to: Seq::new(count as nat, |i: int| be(f, pos + n + 2 + i * n, n) as u32),
            },
        )
    }
}

/// The words of bytes between `pos` and `end` that are no reference.
pub open spec fn reference_fault(kind: Seq<u8>, f: Seq<u8>, pos: int, end: int, n: int) -> Seq<char> {
    let count = be(f, pos + n, 2);
    if pos + n > end {
        read_fault(n, pos, end)
    } else if pos + n + 2 > end {
        read_fault(2, pos + n, end)
    } else {
        "a '"@ + code_name(kind) + "' reference declares "@ + number(count) + " targets, more than its "@ + number(
            end - pos - n - 2,
        ) + " remaining bytes can hold"@
    }
}

/// The references in the boxes between `pos` and `end`.
pub open spec fn references_in(f: Seq<u8>, pos: int, end: int, n: int) -> Option<Seq<ReferenceAt>>
    decreases end - pos,
{
    if end - pos < 8 {
        Some(Seq::empty())
    } else {
        match box_at(f, pos, end) {
            None => None,
            Some(b) => match (reference_at(b.kind, f, b.start, b.end, n), references_in(f, b.end, end, n)) {
                (Some(r), Some(rest)) => Some(seq![r] + rest),
                _ => None,
            },
        }
    }
}

/// The words of references between `pos` and `end` of which one is malformed.
pub open spec fn references_in_fault(f: Seq<u8>, pos: int, end: int, n: int) -> Seq<char>
    decreases end - pos,
{
    if end - pos < 8 {
        Seq::empty()
    } else {
        match box_at(f, pos, end) {
            None => header_fault(f, pos, end),
            Some(b) => if reference_at(b.kind, f, b.start, b.end, n) is None {
                reference_fault(b.kind, f, b.start, b.end, n)
            } else {
                references_in_fault(f, b.end, end, n)
            },
        }
    }
}

/// The references between `pos` and `end`: identifiers are two bytes in version
/// zero, four later.
pub open spec fn references_at(f: Seq<u8>, pos: int, end: int) -> Option<Seq<ReferenceAt>> {
    if pos + 4 > end {
        None
    } else {
        references_in(
            f,
            pos + 4,
            end,
            if be(f, pos, 4) / 0x100_0000 == 0 {
                2
            } else {
                4
            },
        )
    }
}

/// The words of bytes between `pos` and `end` that are no references.
pub open spec fn references_fault(f: Seq<u8>, pos: int, end: int) -> Seq<char> {
    if pos + 4 > end {
        read_fault(4, pos, end)
    } else {
        references_in_fault(
            f,
            pos + 4,
            end,
            if be(f, pos, 4) / 0x100_0000 == 0 {
                2
            } else {
                4
            },
        )
    }
}

/// The first location of an item.
pub open spec fn place_of(places: Seq<PlaceAt>, id: int) -> Option<PlaceAt>
    decreases places.len(),
{
    if places.len() == 0 {
        None
    } else if places[0].id == id {
        Some(places[0])
    } else {
        place_of(places.skip(1), id)
    }
}

/// The items with both a type and a location, in the order of their types.
pub open spec fn joined(infos: Seq<InfoAt>, places: Seq<PlaceAt>) -> Seq<ItemAt>
    decreases infos.len(),
{
    if infos.len() == 0 {
        Seq::empty()
    } else {
        let before = joined(infos.drop_last(), places);
        let i = infos.last();
        match place_of(places, i.id) {
            None => before,
            Some(p) => before.push(
                ItemAt {
                    id: i.id,
                    kind: i.kind,
                    name: i.name,
                    hidden: i.hidden,
                    construction: p.construction,
                    extents: p.extents,
                },
            ),
        }
    }
}

/// Parse the primary item's identifier.
fn parse_pitm(payload: Reader<'_>) -> (r: Outcome<u32>)
    requires
        payload.wf(),
    ensures
        ({
            let m = primary_at(payload.bytes(), payload.at(), payload.limit());
            &&& r is Ok <==> m is Some
            &&& r is Ok ==> r->Ok_0 == m->0
        }),
        r is Err ==> r->Err_0.kind() == ErrorCode::Malformed,
        r is Err ==> r->Err_0.words() == primary_fault(payload.bytes(), payload.at(), payload.limit()),
{
    let mut reader = payload;
    let (version, _flags) = reader.full_box()?;
    if version == 0 {
        Ok(reader.u16()? as u32)
    } else {
        reader.u32()
    }
}

/// An item's identifier, type, name, and whether it is hidden.
#[derive(Debug, Clone)]
pub struct ItemInfo {
    /// The identifier.
    pub id: u32,
    /// The type.
    pub kind: FourCc,
    /// The name.
    pub name: String,
    /// Whether the item is hidden.
    pub hidden: bool,
}

impl View for ItemInfo {
    type V = InfoAt;

    open spec fn view(&self) -> InfoAt {
        InfoAt { id: self.id as int, kind: self.kind@, name: self.name@, hidden: self.hidden }
    }
}

/// What some item informations say.
pub open spec fn info_views(s: Seq<ItemInfo>) -> Seq<InfoAt> {
    Seq::new(s.len(), |i: int| s[i]@)
}

/// Parse one item's information.
fn parse_infe(payload: Reader<'_>) -> (r: Outcome<ItemInfo>)
    requires
        payload.wf(),
    ensures
        ({
            let m = info_at(payload.bytes(), payload.at(), payload.limit());
            &&& r is Ok <==> m is Some
            &&& r is Ok ==> r->Ok_0@ == m->0
        }),
        r is Err ==> r->Err_0.kind() == ErrorCode::Malformed,
        r is Err ==> r->Err_0.words() == info_fault(payload.bytes(), payload.at(), payload.limit()),
{
    let mut reader = payload;
    proof {
        lemma_be(payload.bytes(), payload.at());
    }
    let (version, flags) = reader.full_box()?;
    if version < 2 {
        return Err(
            Message::new("infe version ").then_number(version as u64).then_text(" cannot carry an item type").malformed(),
        );
    }
    let id: u32 = if version == 2 {
        reader.u16()? as u32
    } else {
        reader.u32()?
    };
    reader.u16()?;
    let kind = reader.fourcc()?;
    let name = reader.cstring()?.to_owned();
    let hidden = flags % 2 == 1;
    Ok(ItemInfo { id, kind, name, hidden })
}

/// Earlier entries followed by those still to come.
pub open spec fn chained<T>(before: Seq<T>, rest: Option<Seq<T>>) -> Option<Seq<T>> {
    match rest {
        None => None,
        Some(r) => Some(before + r),
    }
}

/// Parse the item type table.
fn parse_iinf(payload: Reader<'_>) -> (r: Outcome<Vec<ItemInfo>>)
    requires
        payload.wf(),
    ensures
        ({
            let m = infos_at(payload.bytes(), payload.at(), payload.limit());
            &&& r is Ok <==> m is Some
            &&& r is Ok ==> info_views(r->Ok_0@) == m->0
        }),
        r is Err ==> r->Err_0.kind() == ErrorCode::Malformed,
        r is Err ==> r->Err_0.words() == infos_fault(payload.bytes(), payload.at(), payload.limit()),
{
    let mut reader = payload;
    let ghost f = payload.bytes();
    proof {
        lemma_be(f, payload.at());
        lemma_be(f, payload.at() + 4);
    }
    let (version, _flags) = reader.full_box()?;
    let count: u32 = if version == 0 {
        reader.u16()? as u32
    } else {
        reader.u32()?
    };
    if count as u64 * 8 > reader.remaining() as u64 {
        return Err(
            Message::new("iinf declares ").then_number(count as u64).then_text(" items, more than its ").then_number(
                reader.remaining() as u64,
            ).then_text(" remaining bytes can hold").malformed(),
        );
    }
    let ghost first = reader.at();
    let mut out: Vec<ItemInfo> = Vec::new();
    proof {
        assert(info_views(out@) =~= Seq::empty());
        let m = infos_in(f, first, payload.limit());
        if m is Some {
            assert(Seq::<InfoAt>::empty() + m->0 =~= m->0);
        }
    }
    loop
        invariant
            reader.wf(),
            reader.bytes() == f,
            f == payload.bytes(),
            reader.limit() == payload.limit(),
            infos_at(f, payload.at(), payload.limit()) == infos_in(f, first, payload.limit()),
            infos_in(f, first, payload.limit()) == chained(
                info_views(out@),
                infos_in(f, reader.at(), payload.limit()),
            ),
            infos_fault(f, payload.at(), payload.limit()) == infos_in_fault(f, reader.at(), payload.limit()),
        decreases reader.limit() - reader.at(),
    {
        proof {
            reader.lemma_wf();
        }
        match reader.next_box() {
            None => {
                assert(info_views(out@) + Seq::<InfoAt>::empty() =~= info_views(out@));
                return Ok(out);
            },
            Some(header) => {
                let header = header?;
                if header.kind.is(&INFE) {
                    let info = parse_infe(reader.payload(&header))?;
                    let ghost before = info_views(out@);
                    proof {
                        let rest = infos_in(f, reader.at(), payload.limit());
                        if rest is Some {
                            assert(before + (seq![info@] + rest->0) =~= before.push(info@) + rest->0);
                        }
                    }
                    out.push(info);
                    assert(info_views(out@) =~= before.push(info@));
                }
            },
        }
    }
}

/// One item's location.
#[derive(Debug, Clone)]
pub struct Located {
    /// The identifier.
    pub id: u32,
    /// How the extents are addressed.
    pub construction: Construction,
    /// The extents.
    pub extents: Vec<Extent>,
}

impl View for Located {
    type V = PlaceAt;

    open spec fn view(&self) -> PlaceAt {
        PlaceAt { id: self.id as int, construction: self.construction, extents: self.extents@ }
    }
}

/// What some locations say.
pub open spec fn place_views(s: Seq<Located>) -> Seq<PlaceAt> {
    Seq::new(s.len(), |i: int| s[i]@)
}

/// Parse an item's extents.
fn parse_extents(reader: &mut Reader<'_>, w: Widths, base: u64, count: u16, id: u32) -> (r: Outcome<Vec<Extent>>)
    requires
        old(reader).wf(),
    ensures
        ({
            let m = extents_at(
                old(reader).bytes(),
                old(reader).at(),
                old(reader).limit(),
                w,
                base as int,
                count as int,
            );
            &&& r is Ok <==> m is Some
            &&& r is Ok ==> r->Ok_0@ == (m->0).0 && final(reader).at() == (m->0).1
        }),
        r is Err ==> r->Err_0.kind() == ErrorCode::Malformed,
        r is Err ==> r->Err_0.words() == extents_fault(
            old(reader).bytes(),
            old(reader).at(),
            old(reader).limit(),
            w,
            base as int,
            count as int,
            id as int,
        ),
        final(reader).moved(*old(reader)),
{
    let ghost (f, end) = (reader.bytes(), reader.limit());
    let ghost m = extents_at(f, reader.at(), end, w, base as int, count as int);
    let ghost fault = extents_fault(f, reader.at(), end, w, base as int, count as int, id as int);
    let mut out: Vec<Extent> = Vec::new();
    proof {
        if m is Some {
            assert(Seq::<Extent>::empty() + (m->0).0 =~= (m->0).0);
        }
    }
    let mut i: u16 = 0;
    while i < count
        invariant
            i <= count,
            reader.moved(*old(reader)),
            f == reader.bytes(),
            end == reader.limit(),
            m == extents_at(
                old(reader).bytes(),
                old(reader).at(),
                old(reader).limit(),
                w,
                base as int,
                count as int,
            ),
            ({
                let rest = extents_at(f, reader.at(), end, w, base as int, count - i);
                &&& m is Some <==> rest is Some
                &&& m is Some ==> (m->0).0 == out@ + (rest->0).0 && (m->0).1 == (rest->0).1
            }),
            fault == extents_fault(f, reader.at(), end, w, base as int, count - i, id as int),
            fault == extents_fault(
                old(reader).bytes(),
                old(reader).at(),
                old(reader).limit(),
                w,
                base as int,
                count as int,
                id as int,
            ),
        decreases count - i,
    {
        let ghost at = reader.at();
        let ghost before = out@;
        proof {
            lemma_be(f, at + w.index);
            lemma_be(f, at + w.index + w.offset);
        }
        if w.index > 0 {
            reader.uint(w.index)?;
        }
        let offset = reader.uint(w.offset)?;
        let length = reader.uint(w.length)?;
        if offset > u64::MAX - base {
            return Err(
                Message::new("item ").then_number(id as u64).then_text(
                    " has an extent offset that overflows its base",
                ).malformed(),
            );
        }
        let extent = Extent { offset: base + offset, length };
        proof {
            let rest = extents_at(f, reader.at(), end, w, base as int, count - i - 1);
            if rest is Some {
                assert(before + (seq![extent] + (rest->0).0) =~= before.push(extent) + (rest->0).0);
            }
        }
        out.push(extent);
        i = i + 1;
    }
    assert(out@ + Seq::<Extent>::empty() =~= out@);
    Ok(out)
}

/// Parse one item's location.
fn parse_place(reader: &mut Reader<'_>, w: Widths) -> (r: Outcome<Located>)
    requires
        old(reader).wf(),
        w.offset < 16,
        w.length < 16,
        w.index < 16,
    ensures
        ({
            let m = place_at(old(reader).bytes(), old(reader).at(), old(reader).limit(), w);
            &&& r is Ok <==> m is Some
            &&& r is Ok ==> r->Ok_0@ == (m->0).0 && final(reader).at() == (m->0).1
        }),
        r is Err ==> r->Err_0.kind() == ErrorCode::Malformed,
        r is Err ==> r->Err_0.words() == place_fault(old(reader).bytes(), old(reader).at(), old(reader).limit(), w),
        final(reader).moved(*old(reader)),
{
    let ghost (f, at) = (reader.bytes(), reader.at());
    proof {
        lemma_be(f, at);
        lemma_be(f, at + 2);
        lemma_be(f, at + 4);
        lemma_be(f, at + 6);
    }
    let id: u32 = if w.version < 2 {
        reader.u16()? as u32
    } else {
        reader.u32()?
    };
    let construction = if w.version == 1 || w.version == 2 {
        let method = reader.u16()? % 16;
        if method == 0 {
            Construction::File
        } else if method == 1 {
            Construction::Idat
        } else if method == 2 {
            Construction::Item
        } else {
            return Err(
                Message::new("iloc construction method ").then_number(method as u64).then_text(
                    " is not one this format defines",
                ).malformed(),
            );
        }
    } else {
        Construction::File
    };
    reader.u16()?;
    let ghost p = reader.at();
    proof {
        lemma_be(f, p);
        lemma_be(f, p + w.base);
    }
    let base = reader.uint(w.base)?;
    let count = reader.u16()?;
    let sum: u64 = w.offset as u64 + w.length as u64 + w.index as u64;
    let each: u64 = if sum > 1 {
        sum
    } else {
        1
    };
    proof {
        assert(0 <= count * each <= 0xFFFF * 45) by (nonlinear_arith)
            requires
                0 <= count <= 0xFFFF,
                0 <= each <= 45,
        ;
    }
    if count as u64 * each > reader.remaining() as u64 {
        return Err(
            Message::new("item ").then_number(id as u64).then_text(" declares ").then_number(count as u64).then_text(
                " extents, more than its ",
            ).then_number(reader.remaining() as u64).then_text(" remaining bytes can hold").malformed(),
        );
    }
    let extents = parse_extents(reader, w, base, count, id)?;
    Ok(Located { id, construction, extents })
}

/// Parse the item location table.
fn parse_iloc(payload: Reader<'_>) -> (r: Outcome<Vec<Located>>)
    requires
        payload.wf(),
    ensures
        ({
            let m = places_at(payload.bytes(), payload.at(), payload.limit());
            &&& r is Ok <==> m is Some
            &&& r is Ok ==> place_views(r->Ok_0@) == m->0
        }),
        r is Err ==> r->Err_0.kind() == ErrorCode::Malformed,
        r is Err ==> r->Err_0.words() == places_fault(payload.bytes(), payload.at(), payload.limit()),
{
    let mut reader = payload;
    let ghost f = payload.bytes();
    let ghost at = payload.at();
    proof {
        lemma_be(f, at);
        lemma_be(f, at + 6);
    }
    let (version, _flags) = reader.full_box()?;
    let a = reader.u8()?;
    let b = reader.u8()?;
    let w = Widths {
        version,
        offset: a / 16,
        length: a % 16,
        base: b / 16,
        index: if version == 1 || version == 2 {
            b % 16
        } else {
            0
        },
    };
    assert(w == widths_at(f, at));
    if version > 2 {
        return Err(
            Message::new("iloc version ").then_number(version as u64).then_text(
                " is not one this format defines",
            ).malformed(),
        );
    }
    let count: u32 = if version < 2 {
        reader.u16()? as u32
    } else {
        reader.u32()?
    };
    if count as u64 * 6 > reader.remaining() as u64 {
        return Err(
            Message::new("iloc declares ").then_number(count as u64).then_text(" items, more than its ").then_number(
                reader.remaining() as u64,
            ).then_text(" remaining bytes can hold").malformed(),
        );
    }
    let ghost first = reader.at();
    let ghost m = places_from(f, first, payload.limit(), w, count as int);
    let mut out: Vec<Located> = Vec::new();
    proof {
        assert(place_views(out@) =~= Seq::empty());
        if m is Some {
            assert(Seq::<PlaceAt>::empty() + m->0 =~= m->0);
        }
    }
    let mut i: u32 = 0;
    while i < count
        invariant
            i <= count,
            reader.wf(),
            reader.bytes() == f,
            f == payload.bytes(),
            reader.limit() == payload.limit(),
            w.offset < 16,
            w.length < 16,
            w.index < 16,
            m == places_at(f, payload.at(), payload.limit()),
            m == chained(place_views(out@), places_from(f, reader.at(), payload.limit(), w, count - i)),
            places_fault(f, payload.at(), payload.limit()) == places_from_fault(
                f,
                reader.at(),
                payload.limit(),
                w,
                count - i,
            ),
        decreases count - i,
    {
        let place = parse_place(&mut reader, w)?;
        let ghost before = place_views(out@);
        proof {
            let rest = places_from(f, reader.at(), payload.limit(), w, count - i - 1);
            if rest is Some {
                assert(before + (seq![place@] + rest->0) =~= before.push(place@) + rest->0);
            }
        }
        out.push(place);
        assert(place_views(out@) =~= before.push(place@));
        i = i + 1;
    }
    assert(place_views(out@) + Seq::<PlaceAt>::empty() =~= place_views(out@));
    Ok(out)
}

/// What some references say.
pub open spec fn reference_views(s: Seq<Reference>) -> Seq<ReferenceAt> {
    Seq::new(s.len(), |i: int| s[i]@)
}

/// Parse one reference.
fn parse_reference(kind: FourCc, payload: Reader<'_>, short: bool) -> (r: Outcome<Reference>)
    requires
        payload.wf(),
    ensures
        ({
            let m = reference_at(
                kind@,
                payload.bytes(),
                payload.at(),
                payload.limit(),
                if short {
                    2
                } else {
                    4
                },
            );
            &&& r is Ok <==> m is Some
            &&& r is Ok ==> r->Ok_0@ == m->0
        }),
        r is Err ==> r->Err_0.kind() == ErrorCode::Malformed,
        r is Err ==> r->Err_0.words() == reference_fault(
            kind@,
            payload.bytes(),
            payload.at(),
            payload.limit(),
            if short {
                2
            } else {
                4
            },
        ),
{
    let mut reader = payload;
    let ghost f = payload.bytes();
    let ghost n: int = if short {
        2
    } else {
        4
    };
    proof {
        lemma_be(f, payload.at());
        lemma_be(f, payload.at() + n);
    }
    let from: u32 = if short {
        reader.u16()? as u32
    } else {
        reader.u32()?
    };
    let count = reader.u16()?;
    let width: u64 = if short {
        2
    } else {
        4
    };
    if count as u64 * width > reader.remaining() as u64 {
        return Err(
            Message::new("a '").then_code(&kind.0).then_text("' reference declares ").then_number(
                count as u64,
            ).then_text(" targets, more than its ").then_number(reader.remaining() as u64).then_text(
                " remaining bytes can hold",
            ).malformed(),
        );
    }
    let ghost first = reader.at();
    let ghost all = Seq::new(count as nat, |i: int| be(f, first + i * n, n) as u32);
    let mut to: Vec<u32> = Vec::new();
    let mut i: u16 = 0;
    while i < count
        invariant
            i <= count,
            reader.wf(),
            reader.bytes() == f,
            reader.limit() == payload.limit(),
            n == if short {
                2int
            } else {
                4
            },
            reader.at() == first + i * n,
            first + count * n <= payload.limit(),
            all == Seq::new(count as nat, |i: int| be(f, first + i * n, n) as u32),
            to@ == all.take(i as int),
        decreases count - i,
    {
        proof {
            assert((i + 1) * n == i * n + n) by (nonlinear_arith);
            assert((i + 1) * n <= count * n) by (nonlinear_arith)
                requires
                    i + 1 <= count,
                    n >= 0,
            ;
            lemma_be(f, reader.at());
            assert(all.take(i + 1) =~= all.take(i as int).push(all[i as int]));
        }
        let id: u32 = if short {
            reader.u16()? as u32
        } else {
            reader.u32()?
        };
        to.push(id);
        i = i + 1;
    }
    assert(all.take(count as int) =~= all);
    Ok(Reference { kind, from, to })
}

/// Parse the references.
fn parse_iref(payload: Reader<'_>) -> (r: Outcome<Vec<Reference>>)
    requires
        payload.wf(),
    ensures
        ({
            let m = references_at(payload.bytes(), payload.at(), payload.limit());
            &&& r is Ok <==> m is Some
            &&& r is Ok ==> reference_views(r->Ok_0@) == m->0
        }),
        r is Err ==> r->Err_0.kind() == ErrorCode::Malformed,
        r is Err ==> r->Err_0.words() == references_fault(payload.bytes(), payload.at(), payload.limit()),
{
    let mut reader = payload;
    let ghost f = payload.bytes();
    let (version, _flags) = reader.full_box()?;
    let short = version == 0;
    let ghost n: int = if short {
        2
    } else {
        4
    };
    let ghost first = reader.at();
    let ghost m = references_in(f, first, payload.limit(), n);
    let mut out: Vec<Reference> = Vec::new();
    proof {
        assert(reference_views(out@) =~= Seq::empty());
        if m is Some {
            assert(Seq::<ReferenceAt>::empty() + m->0 =~= m->0);
        }
    }
    loop
        invariant
            reader.wf(),
            reader.bytes() == f,
            f == payload.bytes(),
            reader.limit() == payload.limit(),
            n == if short {
                2int
            } else {
                4
            },
            m == references_at(f, payload.at(), payload.limit()),
            m == chained(reference_views(out@), references_in(f, reader.at(), payload.limit(), n)),
            references_fault(f, payload.at(), payload.limit()) == references_in_fault(
                f,
                reader.at(),
                payload.limit(),
                n,
            ),
        decreases reader.limit() - reader.at(),
    {
        proof {
            reader.lemma_wf();
        }
        match reader.next_box() {
            None => {
                assert(reference_views(out@) + Seq::<ReferenceAt>::empty() =~= reference_views(out@));
                return Ok(out);
            },
            Some(header) => {
                let header = header?;
                let reference = parse_reference(header.kind, reader.payload(&header), short)?;
                let ghost before = reference_views(out@);
                proof {
                    let rest = references_in(f, reader.at(), payload.limit(), n);
                    if rest is Some {
                        assert(before + (seq![reference@] + rest->0) =~= before.push(reference@) + rest->0);
                    }
                }
                out.push(reference);
                assert(reference_views(out@) =~= before.push(reference@));
            },
        }
    }
}

/// What some items say.
pub open spec fn item_views(s: Seq<Item>) -> Seq<ItemAt> {
    Seq::new(s.len(), |i: int| s[i]@)
}

/// Where the first location of an item stands.
fn position_of(places: &Vec<Located>, id: u32) -> (r: Option<usize>)
    ensures
        ({
            let m = place_of(place_views(places@), id as int);
            &&& r is Some <==> m is Some
            &&& r is Some ==> r->0 < places@.len() && places@[r->0 as int]@ == m->0
        }),
{
    let ghost all = place_views(places@);
    let mut i: usize = 0;
    assert(all.skip(0) =~= all);
    while i < places.len()
        invariant
            i <= places@.len(),
            all == place_views(places@),
            place_of(all, id as int) == place_of(all.skip(i as int), id as int),
        decreases places@.len() - i,
    {
        assert(all.skip(i as int).skip(1) =~= all.skip(i + 1));
        assert(all.skip(i as int)[0] == places@[i as int]@);
        if places[i].id == id {
            return Some(i);
        }
        i = i + 1;
    }
    None
}

/// Join the type table with the location table.
fn join(infos: Vec<ItemInfo>, places: Vec<Located>) -> (r: Vec<Item>)
    ensures
        item_views(r@) == joined(info_views(infos@), place_views(places@)),
{
    let mut out: Vec<Item> = Vec::new();
    let ghost all = info_views(infos@);
    let mut i: usize = 0;
    assert(item_views(out@) =~= Seq::empty());
    while i < infos.len()
        invariant
            i <= infos@.len(),
            all == info_views(infos@),
            item_views(out@) == joined(all.take(i as int), place_views(places@)),
        decreases infos@.len() - i,
    {
        let info = &infos[i];
        proof {
            assert(all.take(i + 1).drop_last() =~= all.take(i as int));
            assert(all.take(i + 1).last() == info@);
        }
        match position_of(&places, info.id) {
            Some(at) => {
                let place = &places[at];
                let mut extents: Vec<Extent> = Vec::new();
                let mut k: usize = 0;
                while k < place.extents.len()
                    invariant
                        k <= place.extents@.len(),
                        extents@ == place.extents@.take(k as int),
                    decreases place.extents@.len() - k,
                {
                    extents.push(place.extents[k]);
                    assert(place.extents@.take(k + 1) =~= place.extents@.take(k as int).push(place.extents@[k as int]));
                    k = k + 1;
                }
                assert(extents@ =~= place.extents@);
                let ghost before = item_views(out@);
                let item = Item {
                    id: info.id,
                    kind: info.kind,
                    name: info.name.clone(),
                    hidden: info.hidden,
                    construction: place.construction,
                    extents,
                };
                let ghost seen = item@;
                out.push(item);
                assert(item_views(out@) =~= before.push(seen));
            },
            None => {},
        }
        i = i + 1;
    }
    assert(all.take(all.len() as int) =~= all);
    out
}

/// What the boxes of an item table have said so far.
#[verifier::ext_equal]
pub struct Draft {
    /// The primary item.
    pub primary: Option<int>,
    /// The type table.
    pub infos: Seq<InfoAt>,
    /// The location table.
    pub places: Seq<PlaceAt>,
    /// The references.
    pub references: Seq<ReferenceAt>,
    /// The property store.
    pub entries: Seq<Prop>,
    /// The associations.
    pub links: Seq<Link>,
    /// Where the bytes of small items are.
    pub idat: Option<(int, int)>,
}

/// What nothing has said yet.
pub open spec fn blank() -> Draft {
    Draft {
        primary: None,
        infos: Seq::empty(),
        places: Seq::empty(),
        references: Seq::empty(),
        entries: Seq::empty(),
        links: Seq::empty(),
        idat: None,
    }
}

/// What has been said after one more box.
#[verifier::opaque]
pub open spec fn with_box(f: Seq<u8>, d: Draft, kind: Seq<u8>, start: int, end: int) -> Option<Draft> {
    if kind == PITM@ {
        match primary_at(f, start, end) {
            None => None,
            Some(id) => Some(Draft { primary: Some(id), ..d }),
        }
    } else if kind == IINF@ {
        match infos_at(f, start, end) {
            None => None,
            Some(infos) => Some(Draft { infos, ..d }),
        }
    } else if kind == ILOC@ {
        match places_at(f, start, end) {
            None => None,
            Some(places) => Some(Draft { places, ..d }),
        }
    } else if kind == IREF@ {
        match references_at(f, start, end) {
            None => None,
            Some(references) => Some(Draft { references, ..d }),
        }
    } else if kind == IPRP@ {
        match gathered(f, start, end, Seq::empty(), Seq::empty()) {
            None => None,
            Some((entries, links)) => Some(Draft { entries, links, ..d }),
        }
    } else if kind == IDAT@ {
        Some(Draft { idat: Some((start, end)), ..d })
    } else {
        Some(d)
    }
}

/// The words of one more box that is malformed.
#[verifier::opaque]
pub open spec fn box_fault(f: Seq<u8>, kind: Seq<u8>, start: int, end: int) -> Seq<char> {
    if kind == PITM@ {
        primary_fault(f, start, end)
    } else if kind == IINF@ {
        infos_fault(f, start, end)
    } else if kind == ILOC@ {
        places_fault(f, start, end)
    } else if kind == IREF@ {
        references_fault(f, start, end)
    } else {
        gathered_fault(f, start, end)
    }
}

/// What has been said after the boxes between `pos` and `end`; a later box
/// replaces what an earlier one of its type said.
pub open spec fn drafted(f: Seq<u8>, pos: int, end: int, d: Draft) -> Option<Draft>
    decreases end - pos,
{
    if end - pos < 8 {
        Some(d)
    } else {
        match box_at(f, pos, end) {
            None => None,
            Some(b) => match with_box(f, d, b.kind, b.start, b.end) {
                None => None,
                Some(e) => drafted(f, b.end, end, e),
            },
        }
    }
}

/// The words of boxes between `pos` and `end` of which one is malformed.
pub open spec fn drafted_fault(f: Seq<u8>, pos: int, end: int, d: Draft) -> Seq<char>
    decreases end - pos,
{
    if end - pos < 8 {
        Seq::empty()
    } else {
        match box_at(f, pos, end) {
            None => header_fault(f, pos, end),
            Some(b) => match with_box(f, d, b.kind, b.start, b.end) {
                None => box_fault(f, b.kind, b.start, b.end),
                Some(e) => drafted_fault(f, b.end, end, e),
            },
        }
    }
}

/// What the item table between `pos` and `end` says.
pub open spec fn meta_at(f: Seq<u8>, pos: int, end: int) -> Option<Draft> {
    if pos + 4 > end {
        None
    } else {
        drafted(f, pos + 4, end, blank())
    }
}

/// The words of bytes between `pos` and `end` that are no item table.
pub open spec fn meta_fault(f: Seq<u8>, pos: int, end: int) -> Seq<char> {
    if pos + 4 > end {
        read_fault(4, pos, end)
    } else {
        drafted_fault(f, pos + 4, end, blank())
    }
}

impl Draft {
    /// The items.
    pub open spec fn items(self) -> Seq<ItemAt> {
        joined(self.infos, self.places)
    }
}

/// The item table of a file.
#[derive(Debug, Clone)]
pub struct Meta {
    /// The primary item.
    pub primary: Option<u32>,
    /// Every item, in the order of the type table.
    pub items: Vec<Item>,
    /// Every reference.
    pub references: Vec<Reference>,
    /// The items' properties.
    pub properties: Properties,
    /// Where the bytes of small items start in the file, and how many they are.
    pub idat: Option<(usize, usize)>,
}

/// The first item with an identifier.
pub open spec fn item_of(items: Seq<ItemAt>, id: int) -> Option<ItemAt>
    decreases items.len(),
{
    if items.len() == 0 {
        None
    } else if items[0].id == id {
        Some(items[0])
    } else {
        item_of(items.skip(1), id)
    }
}

/// The first image among some items.
pub open spec fn first_image(items: Seq<ItemAt>) -> Option<ItemAt>
    decreases items.len(),
{
    if items.len() == 0 {
        None
    } else if items[0].is_image() {
        Some(items[0])
    } else {
        first_image(items.skip(1))
    }
}

/// The primary item: the one named, or else the first image.
pub open spec fn primary_of(primary: Option<int>, items: Seq<ItemAt>) -> Option<ItemAt> {
    match primary {
        Some(id) => match item_of(items, id) {
            Some(item) => Some(item),
            None => first_image(items),
        },
        None => first_image(items),
    }
}

/// What an item's first reference of a type is to.
pub open spec fn targets(references: Seq<ReferenceAt>, from: int, kind: Seq<u8>) -> Seq<u32>
    decreases references.len(),
{
    if references.len() == 0 {
        Seq::empty()
    } else if references[0].from == from && references[0].kind == kind {
        references[0].to
    } else {
        targets(references.skip(1), from, kind)
    }
}

/// Whether an item's auxiliary type marks an alpha plane.
pub open spec fn marks_alpha(props: Seq<Prop>) -> bool {
    match first_coded(props, AUXC@, false) {
        Some(Prop::Auxiliary(urn)) => urn == URN_ALPHA@ || urn == URN_ALPHA_LEGACY@,
        _ => false,
    }
}

/// The alpha plane of an item: the first auxiliary item that refers to it and is
/// marked as alpha.
pub open spec fn alpha_among(
    items: Seq<ItemAt>,
    entries: Seq<Prop>,
    links: Seq<Link>,
    references: Seq<ReferenceAt>,
    id: u32,
) -> Option<ItemAt>
    decreases references.len(),
{
    if references.len() == 0 {
        None
    } else {
        let r = references[0];
        let item = item_of(items, r.from);
        if r.kind == AUXL@ && r.to.contains(id) && marks_alpha(properties_of(entries, links, r.from as u32)) && item
            is Some {
            item
        } else {
            alpha_among(items, entries, links, references.skip(1), id)
        }
    }
}

impl Meta {
    /// What the items say.
    pub open spec fn all_items(&self) -> Seq<ItemAt> {
        item_views(self.items@)
    }

    /// What the references say.
    pub open spec fn all_references(&self) -> Seq<ReferenceAt> {
        reference_views(self.references@)
    }

    /// The primary item's identifier.
    pub open spec fn named_primary(&self) -> Option<int> {
        match self.primary {
            Some(id) => Some(id as int),
            None => None,
        }
    }

    /// The alpha plane of an item, by some of the references.
    pub open spec fn alpha_of(&self, references: Seq<ReferenceAt>, id: u32) -> Option<ItemAt> {
        alpha_among(self.all_items(), self.properties.entries(), self.properties.links(), references, id)
    }

    /// Whether the table says what a draft says.
    pub open spec fn says(&self, d: Draft) -> bool {
        &&& self.named_primary() == d.primary
        &&& self.all_items() == d.items()
        &&& self.all_references() == d.references
        &&& self.properties.entries() == d.entries
        &&& self.properties.links() == d.links
        &&& match self.idat {
            Some((start, len)) => d.idat == Some((start as int, start + len)),
            None => d.idat is None,
        }
    }

    /// Parse the payload of an item table.
    pub fn parse(meta: Reader<'_>) -> (r: Outcome<Meta>)
        requires
            meta.wf(),
        ensures
            ({
                let m = meta_at(meta.bytes(), meta.at(), meta.limit());
                &&& r is Ok <==> m is Some
                &&& r is Ok ==> r->Ok_0.says(m->0)
            }),
            r is Err ==> r->Err_0.kind() == ErrorCode::Malformed,
            r is Err ==> r->Err_0.words() == meta_fault(meta.bytes(), meta.at(), meta.limit()),
    {
        let mut reader = meta;
        let ghost f = meta.bytes();
        reader.full_box()?;
        let ghost first = reader.at();
        let mut primary: Option<u32> = None;
        let mut infos: Vec<ItemInfo> = Vec::new();
        let mut places: Vec<Located> = Vec::new();
        let mut references: Vec<Reference> = Vec::new();
        let mut properties = Properties::default();
        let mut idat: Option<(usize, usize)> = None;
        let ghost mut d = blank();
        proof {
            assert(info_views(infos@) =~= Seq::empty());
            assert(place_views(places@) =~= Seq::empty());
            assert(reference_views(references@) =~= Seq::empty());
        }
        loop
            invariant
                reader.wf(),
                reader.bytes() == f,
                f == meta.bytes(),
                reader.limit() == meta.limit(),
                meta_at(f, meta.at(), meta.limit()) == drafted(f, reader.at(), reader.limit(), d),
                meta_fault(f, meta.at(), meta.limit()) == drafted_fault(f, reader.at(), reader.limit(), d),
                d.primary == match primary {
                    Some(id) => Some(id as int),
                    None => None,
                },
                d.infos == info_views(infos@),
                d.places == place_views(places@),
                d.references == reference_views(references@),
                d.entries == properties.entries(),
                d.links == properties.links(),
                d.idat == match idat {
                    Some((start, len)) => Some((start as int, start + len)),
                    None => None,
                },
            decreases reader.limit() - reader.at(),
        {
            proof {
                reader.lemma_wf();
            }
            match reader.next_box() {
                None => {
                    let items = join(infos, places);
                    return Ok(Meta { primary, items, references, properties, idat });
                },
                Some(header) => {
                    let header = header?;
                    let payload = reader.payload(&header);
                    let ghost (kind, start, stop) = (header@.kind, header@.start, header@.end);
                    let ghost was = d;
                    proof {
                        reveal(with_box);
                        reveal(box_fault);
                    }
                    if header.kind.is(&PITM) {
                        let id = parse_pitm(payload)?;
                        primary = Some(id);
                        proof {
                            d = Draft { primary: Some(id as int), ..d };
                        }
                    } else if header.kind.is(&IINF) {
                        infos = parse_iinf(payload)?;
                        proof {
                            d = Draft { infos: info_views(infos@), ..d };
                        }
                    } else if header.kind.is(&ILOC) {
                        places = parse_iloc(payload)?;
                        proof {
                            d = Draft { places: place_views(places@), ..d };
                        }
                    } else if header.kind.is(&IREF) {
                        references = parse_iref(payload)?;
                        proof {
                            d = Draft { references: reference_views(references@), ..d };
                        }
                    } else if header.kind.is(&IPRP) {
                        properties = Properties::parse(payload)?;
                        proof {
                            d = Draft { entries: properties.entries(), links: properties.links(), ..d };
                        }
                    } else if header.kind.is(&IDAT) {
                        idat = Some((header.payload_start, header.payload_len));
                        proof {
                            d = Draft { idat: Some((start, stop)), ..d };
                        }
                    }
                    assert(with_box(f, was, kind, start, stop) == Some(d));
                },
            }
        }
    }

    /// The item with an identifier, if there is one.
    pub fn item(&self, id: u32) -> (r: Option<&Item>)
        ensures
            ({
                let m = item_of(self.all_items(), id as int);
                &&& r is Some <==> m is Some
                &&& r is Some ==> r->0@ == m->0 && r->0.id == id
            }),
    {
        let ghost all = self.all_items();
        let mut i: usize = 0;
        assert(all.skip(0) =~= all);
        while i < self.items.len()
            invariant
                i <= self.items@.len(),
                all == self.all_items(),
                item_of(all, id as int) == item_of(all.skip(i as int), id as int),
            decreases self.items@.len() - i,
        {
            assert(all.skip(i as int).skip(1) =~= all.skip(i + 1));
            assert(all.skip(i as int)[0] == self.items@[i as int]@);
            if self.items[i].id == id {
                return Some(&self.items[i]);
            }
            i = i + 1;
        }
        None
    }

    /// The primary item: the one the file names, or else the first image.
    pub fn primary_item(&self) -> (r: Option<&Item>)
        ensures
            ({
                let m = primary_of(self.named_primary(), self.all_items());
                &&& r is Some <==> m is Some
                &&& r is Some ==> r->0@ == m->0
            }),
    {
        if let Some(id) = self.primary {
            let found = self.item(id);
            if found.is_some() {
                return found;
            }
        }
        let ghost all = self.all_items();
        let mut i: usize = 0;
        assert(all.skip(0) =~= all);
        while i < self.items.len()
            invariant
                i <= self.items@.len(),
                all == self.all_items(),
                first_image(all) == first_image(all.skip(i as int)),
                primary_of(self.named_primary(), all) == first_image(all),
            decreases self.items@.len() - i,
        {
            assert(all.skip(i as int).skip(1) =~= all.skip(i + 1));
            assert(all.skip(i as int)[0] == self.items@[i as int]@);
            if self.items[i].is_coded_image() || self.items[i].is_grid() {
                return Some(&self.items[i]);
            }
            i = i + 1;
        }
        None
    }

    /// The items that an item's first reference of a type is to.
    pub fn referenced(&self, from: u32, kind: &[u8; 4]) -> (r: Vec<u32>)
        ensures
            r@ == targets(self.all_references(), from as int, kind@),
    {
        let ghost all = self.all_references();
        let mut i: usize = 0;
        assert(all.skip(0) =~= all);
        while i < self.references.len()
            invariant
                i <= self.references@.len(),
                all == self.all_references(),
                targets(all, from as int, kind@) == targets(all.skip(i as int), from as int, kind@),
            decreases self.references@.len() - i,
        {
            assert(all.skip(i as int).skip(1) =~= all.skip(i + 1));
            assert(all.skip(i as int)[0] == self.references@[i as int]@);
            let reference = &self.references[i];
            if reference.from == from && reference.kind.is(kind) {
                let mut out: Vec<u32> = Vec::new();
                let mut k: usize = 0;
                while k < reference.to.len()
                    invariant
                        k <= reference.to@.len(),
                        out@ == reference.to@.take(k as int),
                    decreases reference.to@.len() - k,
                {
                    out.push(reference.to[k]);
                    assert(reference.to@.take(k + 1) =~= reference.to@.take(k as int).push(reference.to@[k as int]));
                    k = k + 1;
                }
                assert(out@ =~= reference.to@);
                return out;
            }
            i = i + 1;
        }
        Vec::new()
    }

    /// Whether an item is marked as an alpha plane.
    fn is_alpha(&self, id: u32) -> (r: bool)
        ensures
            r == marks_alpha(self.properties.of(id)),
    {
        match self.properties.auxiliary_type(id) {
            Some(urn) => {
                let urn = urn.to_owned();
                urn == URN_ALPHA.to_owned() || urn == URN_ALPHA_LEGACY.to_owned()
            },
            None => false,
        }
    }

    /// The alpha plane of an item, if the file has one: an auxiliary item that
    /// refers to it and is marked as alpha, not as something else.
    pub fn alpha_item(&self, id: u32) -> (r: Option<&Item>)
        ensures
            ({
                let m = self.alpha_of(self.all_references(), id);
                &&& r is Some <==> m is Some
                &&& r is Some ==> r->0@ == m->0
            }),
    {
        let ghost all = self.all_references();
        let mut i: usize = 0;
        assert(all.skip(0) =~= all);
        while i < self.references.len()
            invariant
                i <= self.references@.len(),
                all == self.all_references(),
                self.alpha_of(all, id) == self.alpha_of(all.skip(i as int), id),
            decreases self.references@.len() - i,
        {
            assert(all.skip(i as int).skip(1) =~= all.skip(i + 1));
            assert(all.skip(i as int)[0] == self.references@[i as int]@);
            let reference = &self.references[i];
            if reference.kind.is(&AUXL) && holds(&reference.to, id) && self.is_alpha(reference.from) {
                let found = self.item(reference.from);
                if found.is_some() {
                    return found;
                }
            }
            i = i + 1;
        }
        None
    }
}

/// Whether some identifiers hold one.
fn holds(ids: &Vec<u32>, id: u32) -> (r: bool)
    ensures
        r == ids@.contains(id),
{
    let mut i: usize = 0;
    while i < ids.len()
        invariant
            i <= ids@.len(),
            forall|k: int| 0 <= k < i ==> ids@[k] != id,
        decreases ids@.len() - i,
    {
        if ids[i] == id {
            assert(ids@[i as int] == id);
            return true;
        }
        i = i + 1;
    }
    false
}

/// An item's bytes: a part of the file, or several joined.
#[derive(Debug)]
pub enum ItemData<'a> {
    /// A part of the file.
    Borrowed(&'a [u8]),
    /// Parts of the file, joined.
    Owned(Vec<u8>),
}

impl<'a> View for ItemData<'a> {
    type V = Seq<u8>;

    open spec fn view(&self) -> Seq<u8> {
        match self {
            ItemData::Borrowed(bytes) => bytes@,
            ItemData::Owned(bytes) => bytes@,
        }
    }
}

impl<'a> ItemData<'a> {
    /// The bytes.
    pub fn as_slice(&self) -> (r: &[u8])
        ensures
            r@ == self@,
    {
        match self {
            ItemData::Borrowed(bytes) => bytes,
            ItemData::Owned(bytes) => bytes.as_slice(),
        }
    }

    /// The bytes, copied where they are a part of the file.
    pub fn into_owned(self) -> (r: Vec<u8>)
        ensures
            r@ == self@,
    {
        match self {
            ItemData::Borrowed(bytes) => crate::text::copied(bytes),
            ItemData::Owned(bytes) => bytes,
        }
    }
}

/// The sum of some extents' lengths.
pub open spec fn total_length(extents: Seq<Extent>) -> int
    decreases extents.len(),
{
    if extents.len() == 0 {
        0
    } else {
        total_length(extents.drop_last()) + extents.last().length
    }
}

/// Whether every extent is within a region.
pub open spec fn within(extents: Seq<Extent>, len: int) -> bool {
    forall|i: int| 0 <= i < extents.len() ==> (#[trigger] extents[i]).offset + extents[i].length <= len
}

/// The bytes of some extents of a region, joined.
pub open spec fn joined_bytes(region: Seq<u8>, extents: Seq<Extent>) -> Seq<u8>
    decreases extents.len(),
{
    if extents.len() == 0 {
        Seq::empty()
    } else {
        let e = extents.last();
        joined_bytes(region, extents.drop_last()) + region.subrange(e.offset as int, e.offset + e.length)
    }
}

/// What an item's extents are offsets into: the file, or the bytes of small items.
pub open spec fn region_of(file: Seq<u8>, item: ItemAt, idat: Option<(usize, usize)>) -> Result<Seq<u8>, Fault> {
    match item.construction {
        Construction::File => Ok(file),
        Construction::Idat => match idat {
            Some((start, len)) => if start + len <= file.len() {
                Ok(file.subrange(start as int, start + len))
            } else {
                Err(malformed("the idat box extends past the file"@))
            },
            None => Err(
                malformed("item "@ + number(item.id) + " is stored in idat, but the file has no idat box"@),
            ),
        },
        Construction::Item => Err(
            unsupported(
                "avif: item "@ + number(item.id)
                    + " uses item-relative extent offsets, which this decoder does not resolve"@,
            ),
        ),
    }
}

/// The words of an item's extent that is outside its region of `len` bytes.
pub open spec fn extent_fault(id: int, extent: Extent, len: int) -> Seq<char> {
    let item = "item "@ + number(id);
    if extent.offset > usize::MAX {
        item + " starts at offset "@ + number(extent.offset as int) + ", beyond this platform's addressing"@
    } else if extent.length > usize::MAX {
        item + " declares a "@ + number(extent.length as int) + "-byte extent, beyond this platform's addressing"@
    } else if extent.offset + extent.length > usize::MAX {
        item + "'s extent overflows"@
    } else {
        item + " has an extent at "@ + number(extent.offset as int) + ".."@ + number(extent.offset + extent.length)
            + ", outside the "@ + number(len) + " bytes available"@
    }
}

/// The words of the first extent from number `i` on that is outside its region.
pub open spec fn outside_fault(id: int, extents: Seq<Extent>, i: int, len: int) -> Seq<char>
    decreases extents.len() - i,
{
    if i >= extents.len() {
        Seq::empty()
    } else if extents[i].offset + extents[i].length > len {
        extent_fault(id, extents[i], len)
    } else {
        outside_fault(id, extents, i + 1, len)
    }
}

/// An item's bytes. No extents, an extent outside its region, or extents that are
/// longer in all than their region, are malformed.
pub open spec fn item_bytes(file: Seq<u8>, item: ItemAt, idat: Option<(usize, usize)>) -> Result<Seq<u8>, Fault> {
    match region_of(file, item, idat) {
        Err(fault) => Err(fault),
        Ok(region) => {
            let len = region.len() as int;
            if total_length(item.extents) > len {
                Err(
                    malformed(
                        "item "@ + number(item.id) + " declares "@ + number(total_length(item.extents))
                            + " bytes across "@ + number(item.extents.len() as int) + " extents, more than the "@
                            + number(len) + " available"@,
                    ),
                )
            } else if item.extents.len() == 0 {
                Err(malformed("item "@ + number(item.id) + " has no extents, so it has no data"@))
            } else if !within(item.extents, len) {
                Err(malformed(outside_fault(item.id, item.extents, 0, len)))
            } else {
                Ok(joined_bytes(region, item.extents))
            }
        },
    }
}

/// An item is never longer than the region it is taken from.
pub proof fn lemma_item_bounded(file: Seq<u8>, item: ItemAt, idat: Option<(usize, usize)>)
    requires
        item_bytes(file, item, idat) is Ok,
    ensures
        item_bytes(file, item, idat)->Ok_0.len() <= file.len(),
{
    let region = region_of(file, item, idat)->Ok_0;
    lemma_joined_length(region, item.extents);
}

/// Joined extents are as long as their lengths in all.
proof fn lemma_joined_length(region: Seq<u8>, extents: Seq<Extent>)
    requires
        within(extents, region.len() as int),
    ensures
        joined_bytes(region, extents).len() == total_length(extents),
    decreases extents.len(),
{
    if extents.len() > 0 {
        assert(within(extents.drop_last(), region.len() as int)) by {
            assert forall|i: int| 0 <= i < extents.drop_last().len() implies (#[trigger] extents.drop_last()[i]).offset
                + extents.drop_last()[i].length <= region.len() by {
                assert(extents.drop_last()[i] == extents[i]);
            }
        }
        lemma_joined_length(region, extents.drop_last());
        let last = extents[extents.len() - 1];
        assert(last.offset + last.length <= region.len());
    }
}

/// The sum of `n` lengths is below `n` times the largest.
proof fn lemma_total_bound(extents: Seq<Extent>)
    ensures
        total_length(extents) <= extents.len() * u64::MAX,
    decreases extents.len(),
{
    if extents.len() > 0 {
        lemma_total_bound(extents.drop_last());
        assert(extents.len() * u64::MAX == (extents.len() - 1) * u64::MAX + u64::MAX) by (nonlinear_arith);
    }
}

/// How long some extents are together.
fn total_of(extents: &Vec<Extent>) -> (r: u128)
    ensures
        r == total_length(extents@),
{
    let mut sum: u128 = 0;
    let count = extents.len();
    let mut i: usize = 0;
    assert(extents@.take(0) =~= Seq::<Extent>::empty());
    while i < count
        invariant
            i <= count,
            count == extents@.len(),
            sum == total_length(extents@.take(i as int)),
        decreases extents@.len() - i,
    {
        proof {
            assert(extents@.take(i + 1).drop_last() =~= extents@.take(i as int));
            lemma_total_bound(extents@.take(i + 1));
            assert((i + 1) * u64::MAX <= u128::MAX) by (nonlinear_arith)
                requires
                    0 <= i < u64::MAX,
            ;
        }
        sum = sum + extents[i].length as u128;
        i = i + 1;
    }
    assert(extents@.take(extents@.len() as int) =~= extents@);
    sum
}

/// One extent of an item's region.
fn slice_of<'a>(region: &'a [u8], extent: Extent, id: u32) -> (r: Outcome<&'a [u8]>)
    ensures
        r is Ok <==> extent.offset + extent.length <= region@.len(),
        r is Ok ==> r->Ok_0@ == region@.subrange(extent.offset as int, extent.offset + extent.length),
        r is Err ==> r->Err_0.kind() == ErrorCode::Malformed,
        r is Err ==> r->Err_0.words() == extent_fault(id as int, extent, region@.len() as int),
{
    let most = usize::MAX as u64;
    assert(region@.len() == region.len());
    if extent.offset > most {
        return Err(
            Message::new("item ").then_number(id as u64).then_text(" starts at offset ").then_number(
                extent.offset,
            ).then_text(", beyond this platform's addressing").malformed(),
        );
    }
    if extent.length > most {
        return Err(
            Message::new("item ").then_number(id as u64).then_text(" declares a ").then_number(extent.length).then_text(
                "-byte extent, beyond this platform's addressing",
            ).malformed(),
        );
    }
    if extent.length > most - extent.offset {
        return Err(Message::new("item ").then_number(id as u64).then_text("'s extent overflows").malformed());
    }
    let start = extent.offset as usize;
    let end = start + extent.length as usize;
    if end > region.len() {
        return Err(
            Message::new("item ").then_number(id as u64).then_text(" has an extent at ").then_number(
                start as u64,
            ).then_text("..").then_number(end as u64).then_text(", outside the ").then_number(
                region.len() as u64,
            ).then_text(" bytes available").malformed(),
        );
    }
    Ok(vstd::slice::slice_subrange(region, start, end))
}

impl Meta {
    /// The bytes of an item, a part of the file where the item is one extent.
    /// Item-relative extents are unsupported.
    pub fn item_data<'a>(&self, file: &'a [u8], item: &Item) -> (r: Outcome<ItemData<'a>>)
        ensures
            ({
                let m = item_bytes(file@, item@, self.idat);
                &&& r is Ok <==> m is Ok
                &&& r is Ok ==> r->Ok_0@ == m->Ok_0 && (r->Ok_0 is Borrowed <==> item@.extents.len() == 1)
                &&& r is Err ==> r->Err_0.fault() == m->Err_0
            }),
    {
        let region: &'a [u8] = match item.construction {
            Construction::File => file,
            Construction::Idat => match self.idat {
                Some((start, len)) => {
                    if start > file.len() || len > file.len() - start {
                        return Err(PixelsError::malformed("the idat box extends past the file"));
                    }
                    vstd::slice::slice_subrange(file, start, start + len)
                },
                None => {
                    return Err(
                        Message::new("item ").then_number(item.id as u64).then_text(
                            " is stored in idat, but the file has no idat box",
                        ).malformed(),
                    );
                },
            },
            Construction::Item => {
                return Err(
                    Message::new("avif: item ").then_number(item.id as u64).then_text(
                        " uses item-relative extent offsets, which this decoder does not resolve",
                    ).unsupported(),
                );
            },
        };
        let total = total_of(&item.extents);
        if total > region.len() as u128 {
            return Err(
                Message::new("item ").then_number(item.id as u64).then_text(" declares ").then_sum(total).then_text(
                    " bytes across ",
                ).then_number(item.extents.len() as u64).then_text(" extents, more than the ").then_number(
                    region.len() as u64,
                ).then_text(" available").malformed(),
            );
        }
        let count = item.extents.len();
        let ghost all = item.extents@;
        if count == 0 {
            return Err(
                Message::new("item ").then_number(item.id as u64).then_text(
                    " has no extents, so it has no data",
                ).malformed(),
            );
        }
        if count == 1 {
            proof {
                assert(all.drop_last() =~= Seq::<Extent>::empty());
                reveal_with_fuel(joined_bytes, 2);
            }
            assert(all[0] == all.last());
            let bytes = slice_of(region, item.extents[0], item.id)?;
            assert(joined_bytes(region@, all) =~= bytes@);
            return Ok(ItemData::Borrowed(bytes));
        }
        let mut out: Vec<u8> = Vec::new();
        let mut i: usize = 0;
        assert(joined_bytes(region@, all.take(0)) =~= Seq::<u8>::empty());
        while i < count
            invariant
                i <= count,
                count == all.len(),
                count >= 2,
                all == item.extents@,
                region_of(file@, item@, self.idat) == Ok::<Seq<u8>, Fault>(region@),
                total_length(all) <= region@.len(),
                out@ == joined_bytes(region@, all.take(i as int)),
                forall|k: int| 0 <= k < i ==> (#[trigger] all[k]).offset + all[k].length <= region@.len(),
                outside_fault(item.id as int, all, 0, region@.len() as int) == outside_fault(
                    item.id as int,
                    all,
                    i as int,
                    region@.len() as int,
                ),
            decreases count - i,
        {
            let extent = item.extents[i];
            assert(extent == all[i as int]);
            let bytes = slice_of(region, extent, item.id)?;
            proof {
                let t = all.take(i + 1);
                assert(t.drop_last() =~= all.take(i as int));
                assert(t.last() == extent);
            }
            append_bytes(&mut out, bytes);
            i = i + 1;
        }
        assert(all.take(count as int) =~= all);
        Ok(ItemData::Owned(out))
    }
}

} // verus!
