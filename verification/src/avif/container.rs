//! The container: detection, and what it says about the primary image.
//!
//! Everything here comes from boxes, so it is available without touching the AV1
//! bitstream.
use super::boxes::{box_at, first_of, header_fault, lemma_box_progress, search_fault, Reader};
use super::meta::{
    alpha_among, blank, drafted, item_bytes, lemma_item_bounded, meta_at, meta_fault, primary_of, targets, with_box, Draft, Item, ItemAt,
    Meta, GRID, IPRP,
};
use super::props::{
    associations_at, first_coded, gathered, properties_of, property_at, store_at, unknown_essential, Av1Config, ConfigAt,
    Extents, Link, Prop, Subsampling, AUXC, AV1C, COLR, IMIR, IPCO, IPMA, IROT,
    ISPE, PASP, PIXI,
};
use crate::error::{malformed, unsupported, Fault, Message, Outcome, PixelsError};
use crate::pixel::{Format, PixelFormat};
use crate::text::{code_name, copied, number};
use vstd::prelude::*;

verus! {

/// `ftyp`: the box that declares a file's brands.
pub const SIGNATURE_FTYP: [u8; 4] = [0x66, 0x74, 0x79, 0x70];

/// The brands of a still image: `avif`, `mif1`, `miaf`, `MA1A` and `MA1B`.
pub const BRANDS_STILL: [[u8; 4]; 5] = [
    [0x61, 0x76, 0x69, 0x66],
    [0x6D, 0x69, 0x66, 0x31],
    [0x6D, 0x69, 0x61, 0x66],
    [0x4D, 0x41, 0x31, 0x41],
    [0x4D, 0x41, 0x31, 0x42],
];

/// `avis`: the brand of an image sequence, of which the primary image is read.
pub const BRAND_SEQUENCE: [u8; 4] = [0x61, 0x76, 0x69, 0x73];

/// `meta`: the item table.
pub const META: [u8; 4] = [0x6D, 0x65, 0x74, 0x61];

/// `dimg`: the reference from a derived image to what it is made of.
pub const DIMG: [u8; 4] = [0x64, 0x69, 0x6D, 0x67];

/// Whether four bytes are a brand of an image.
pub open spec fn known_brand(brand: Seq<u8>) -> bool {
    ||| brand == BRANDS_STILL@[0]@
    ||| brand == BRANDS_STILL@[1]@
    ||| brand == BRANDS_STILL@[2]@
    ||| brand == BRANDS_STILL@[3]@
    ||| brand == BRANDS_STILL@[4]@
    ||| brand == BRAND_SEQUENCE@
}

/// The word number `k` from offset 8 on.
pub open spec fn word(f: Seq<u8>, k: int) -> Seq<u8> {
    f.subrange(8 + 4 * k, 12 + 4 * k)
}

/// Whether bytes start like a file that declares a brand of an image. The first
/// word is the major brand, the second a version number, the others are
/// compatible brands.
pub open spec fn recognised(f: Seq<u8>) -> bool {
    &&& f.len() >= 8
    &&& f.subrange(4, 8) == SIGNATURE_FTYP@
    &&& exists|k: int| 0 <= k && k != 1 && 12 + 4 * k <= f.len() && known_brand(#[trigger] word(f, k))
}

/// Whether four bytes at an offset are the ones given.
fn same_at(f: &[u8], at: usize, code: &[u8; 4]) -> (r: bool)
    requires
        at + 4 <= f@.len(),
    ensures
        r == (f@.subrange(at as int, at + 4) == code@),
{
    let r = f[at] == code[0] && f[at + 1] == code[1] && f[at + 2] == code[2] && f[at + 3] == code[3];
    proof {
        let s = f@.subrange(at as int, at + 4);
        if r {
            assert(s =~= code@);
        } else {
            assert(s[0] == f@[at as int] && s[1] == f@[at + 1] && s[2] == f@[at + 2] && s[3] == f@[at + 3]);
        }
    }
    r
}

/// Whether the four bytes at an offset are a brand of an image.
fn is_known_brand(f: &[u8], at: usize) -> (r: bool)
    requires
        at + 4 <= f@.len(),
    ensures
        r == known_brand(f@.subrange(at as int, at + 4)),
{
    same_at(f, at, &BRANDS_STILL[0]) || same_at(f, at, &BRANDS_STILL[1]) || same_at(f, at, &BRANDS_STILL[2]) || same_at(
        f,
        at,
        &BRANDS_STILL[3],
    ) || same_at(f, at, &BRANDS_STILL[4]) || same_at(f, at, &BRAND_SEQUENCE)
}

/// Whether `prefix` starts like a file that declares a brand of an image, as its
/// major brand or as a compatible one.
pub fn probe(prefix: &[u8]) -> (r: bool)
    ensures
        r == recognised(prefix@),
{
    if prefix.len() < 8 || !same_at(prefix, 4, &SIGNATURE_FTYP) {
        return false;
    }
    let words = (prefix.len() - 8) / 4;
    let mut k: usize = 0;
    while k < words
        invariant
            k <= words,
            words == (prefix@.len() - 8) / 4,
            prefix@.len() >= 8,
            prefix@.len() == prefix.len(),
            prefix@.subrange(4, 8) == SIGNATURE_FTYP@,
            forall|n: int| 0 <= n < k && n != 1 ==> !known_brand(#[trigger] word(prefix@, n)),
        decreases words - k,
    {
        if k != 1 && is_known_brand(prefix, 8 + 4 * k) {
            assert(known_brand(word(prefix@, k as int)));
            return true;
        }
        k = k + 1;
    }
    false
}

/// What a registry of formats asks of AVIF.
#[derive(Debug, Clone, Copy)]
pub struct AvifCodec;

impl AvifCodec {
    /// The format.
    pub fn format(&self) -> (r: Format)
        ensures
            r == Format::Avif,
    {
        Format::Avif
    }

    /// The bytes that are enough to tell the format by: the type box with four
    /// compatible brands. Fewer do where a brand comes early.
    pub fn magic_len(&self) -> (r: usize)
        ensures
            r == 32,
    {
        32
    }

    /// Whether a file that starts with `prefix` is of the format.
    pub fn probe(&self, prefix: &[u8]) -> (r: bool)
        ensures
            r == recognised(prefix@),
    {
        probe(prefix)
    }
}

/// What the container says about the primary image.
#[derive(Debug, Clone)]
pub struct AvifInfo {
    /// The width.
    pub width: u32,
    /// The height.
    pub height: u32,
    /// The AV1 configuration, of the first tile where the image is a grid.
    pub config: Av1Config,
    /// Whether the file has an alpha plane for the image.
    pub has_alpha: bool,
    /// Whether the image is a grid.
    pub is_grid: bool,
}

/// What the container says about the primary image.
#[verifier::ext_equal]
pub struct InfoAt {
    /// The dimensions.
    pub extents: Extents,
    /// The AV1 configuration.
    pub config: ConfigAt,
    /// Whether there is an alpha plane.
    pub has_alpha: bool,
    /// Whether the image is a grid.
    pub is_grid: bool,
}

impl View for AvifInfo {
    type V = InfoAt;

    open spec fn view(&self) -> InfoAt {
        InfoAt {
            extents: Extents { width: self.width, height: self.height },
            config: self.config@,
            has_alpha: self.has_alpha,
            is_grid: self.is_grid,
        }
    }
}

/// What the item table says about an item that is primary. An essential property
/// that is not interpreted, or another type than an image's, is unsupported; no
/// dimensions, a grid of no tiles, or no AV1 configuration, is malformed.
pub open spec fn described(d: Draft, primary: ItemAt) -> Result<InfoAt, Fault> {
    let id = primary.id as u32;
    let grid = primary.kind == GRID@;
    let tiles = targets(d.references, primary.id, DIMG@);
    let extents = first_coded(properties_of(d.entries, d.links, id), ISPE@, false);
    let source = if grid {
        tiles[0]
    } else {
        id
    };
    let config = first_coded(properties_of(d.entries, d.links, source), AV1C@, false);
    if let Some(kind) = unknown_essential(d.entries, d.links, id) {
        Err(
            unsupported(
                "avif: the primary item requires the '"@ + code_name(kind)
                    + "' property, which this decoder does not implement"@,
            ),
        )
    } else if !primary.is_image() {
        Err(
            unsupported(
                "avif: the primary item has type '"@ + code_name(primary.kind)
                    + "', which is not an image this decoder produces"@,
            ),
        )
    } else if extents is None {
        Err(malformed("item "@ + number(primary.id) + " has no ispe property, so its size is unknown"@))
    } else if grid && tiles.len() == 0 {
        Err(malformed("grid item "@ + number(primary.id) + " references no tiles"@))
    } else if config is None {
        Err(
            malformed(
                "item "@ + number(source as int) + " has no av1C property, so it is not a coded AV1 image"@,
            ),
        )
    } else {
        Ok(
            InfoAt {
                extents: extents->0->Extents_0,
                config: config->0->Av1_0,
                has_alpha: alpha_among(d.items(), d.entries, d.links, d.references, id) is Some,
                is_grid: grid,
            },
        )
    }
}

/// The first item table of a range of a file.
pub open spec fn table_from(f: Seq<u8>, pos: int, end: int) -> Option<Draft> {
    match first_of(f, pos, end, META@) {
        Some(Some(b)) => meta_at(f, b.start, b.end),
        _ => None,
    }
}

/// The words of a range of a file without an item table.
pub open spec fn table_from_fault(f: Seq<u8>, pos: int, end: int) -> Seq<char> {
    match first_of(f, pos, end, META@) {
        None => search_fault(f, pos, end, META@),
        Some(None) => "the file has no meta box"@,
        Some(Some(b)) => meta_fault(f, b.start, b.end),
    }
}

/// The item table of a file, after its first box.
pub open spec fn table_of(f: Seq<u8>) -> Option<Draft> {
    match box_at(f, 0, f.len() as int) {
        Some(b) => table_from(f, b.end, f.len() as int),
        None => None,
    }
}

/// What a file says about its primary image. A file that does not start with a
/// type box that declares a known brand, or has no item table or no primary image,
/// is malformed.
pub open spec fn container(f: Seq<u8>) -> Result<InfoAt, Fault> {
    let end = f.len() as int;
    if end < 8 {
        Err(malformed("the file holds no boxes"@))
    } else {
        match box_at(f, 0, end) {
            None => Err(malformed(header_fault(f, 0, end))),
            Some(first) => if first.kind != SIGNATURE_FTYP@ {
                Err(malformed("the file begins with '"@ + code_name(first.kind) + "' rather than 'ftyp'"@))
            } else if !recognised(f) {
                Err(malformed("the ftyp box declares no brand this decoder recognises"@))
            } else {
                match table_of(f) {
                    None => Err(malformed(table_from_fault(f, first.end, end))),
                    Some(d) => match primary_of(d.primary, d.items()) {
                        None => Err(malformed("the file names no primary image item"@)),
                        Some(primary) => described(d, primary),
                    },
                }
            },
        }
    }
}

/// The coded bytes of the primary image of a file whose first box is whole.
pub open spec fn primary_frame(f: Seq<u8>) -> Result<Seq<u8>, Fault> {
    match table_of(f) {
        None => Err(malformed(table_from_fault(f, box_at(f, 0, f.len() as int)->0.end, f.len() as int))),
        Some(d) => match primary_of(d.primary, d.items()) {
            None => Err(malformed("the file names no primary image item"@)),
            Some(primary) => item_bytes(
                f,
                primary,
                match d.idat {
                    Some((start, end)) => Some((start as usize, (end - start) as usize)),
                    None => None,
                },
            ),
        },
    }
}

/// Describe a primary item.
fn describe(meta: &Meta, primary: &Item, Ghost(d): Ghost<Draft>) -> (r: Outcome<AvifInfo>)
    requires
        meta.says(d),
    ensures
        ({
            let m = described(d, primary@);
            &&& r is Ok <==> m is Ok
            &&& r is Ok ==> r->Ok_0@ == m->Ok_0
            &&& r is Err ==> r->Err_0.fault() == m->Err_0
        }),
{
    if let Some(kind) = meta.properties.essential_unknown(primary.id) {
        return Err(
            Message::new("avif: the primary item requires the '").then_code(&kind.0).then_text(
                "' property, which this decoder does not implement",
            ).unsupported(),
        );
    }
    let grid = primary.is_grid();
    if !primary.is_coded_image() && !grid {
        return Err(
            Message::new("avif: the primary item has type '").then_code(&primary.kind.0).then_text(
                "', which is not an image this decoder produces",
            ).unsupported(),
        );
    }
    let extents = match meta.properties.extents(primary.id) {
        Some(e) => e,
        None => {
            return Err(
                Message::new("item ").then_number(primary.id as u64).then_text(
                    " has no ispe property, so its size is unknown",
                ).malformed(),
            );
        },
    };
    let source = if grid {
        let tiles = meta.referenced(primary.id, &DIMG);
        if tiles.len() == 0 {
            return Err(
                Message::new("grid item ").then_number(primary.id as u64).then_text(
                    " references no tiles",
                ).malformed(),
            );
        }
        tiles[0]
    } else {
        primary.id
    };
    match meta.properties.av1_config(source) {
        Some(c) => {
            let config = Av1Config {
                seq_profile: c.seq_profile,
                seq_level_idx0: c.seq_level_idx0,
                seq_tier0: c.seq_tier0,
                bit_depth: c.bit_depth,
                subsampling: c.subsampling,
                chroma_sample_position: c.chroma_sample_position,
                config_obus: copied(c.config_obus.as_slice()),
            };
            assert(config@ == c@);
            let has_alpha = meta.alpha_item(primary.id).is_some();
            Ok(AvifInfo { width: extents.width, height: extents.height, config, has_alpha, is_grid: grid })
        },
        None => Err(
            Message::new("item ").then_number(source as u64).then_text(
                " has no av1C property, so it is not a coded AV1 image",
            ).malformed(),
        ),
    }
}

/// Find and parse the item table, from a reader on.
fn parse_table(from: Reader<'_>) -> (r: Outcome<Meta>)
    requires
        from.wf(),
    ensures
        ({
            let m = table_from(from.bytes(), from.at(), from.limit());
            &&& r is Ok <==> m is Some
            &&& r is Ok ==> r->Ok_0.says(m->0)
        }),
        r is Err ==> r->Err_0.fault() == malformed(table_from_fault(from.bytes(), from.at(), from.limit())),
{
    let mut reader = from;
    match reader.find(&META)? {
        Some(payload) => Meta::parse(payload),
        None => Err(PixelsError::malformed("the file has no meta box")),
    }
}

/// Parse the container down to the facts about the primary image.
pub fn parse_container(bytes: &[u8]) -> (r: Outcome<AvifInfo>)
    ensures
        ({
            let m = container(bytes@);
            &&& r is Ok <==> m is Ok
            &&& r is Ok ==> r->Ok_0@ == m->Ok_0
            &&& r is Err ==> r->Err_0.fault() == m->Err_0
        }),
{
    let mut reader = Reader::new(bytes);
    let first = match reader.next_box() {
        Some(header) => header?,
        None => {
            return Err(PixelsError::malformed("the file holds no boxes"));
        },
    };
    if !first.kind.is(&SIGNATURE_FTYP) {
        return Err(
            Message::new("the file begins with '").then_code(&first.kind.0).then_text(
                "' rather than 'ftyp'",
            ).malformed(),
        );
    }
    if !probe(bytes) {
        return Err(PixelsError::malformed("the ftyp box declares no brand this decoder recognises"));
    }
    let meta = parse_table(reader)?;
    let ghost d = table_of(bytes@)->0;
    match meta.primary_item() {
        Some(primary) => describe(&meta, primary, Ghost(d)),
        None => Err(PixelsError::malformed("the file names no primary image item")),
    }
}

/// Locate and copy out the coded bytes of the primary image of a file whose first
/// box is whole.
pub fn locate_primary_frame(bytes: &[u8]) -> (r: Outcome<Vec<u8>>)
    requires
        container(bytes@) is Ok,
    ensures
        ({
            let m = primary_frame(bytes@);
            &&& r is Ok <==> m is Ok
            &&& r is Ok ==> r->Ok_0@ == m->Ok_0
            &&& r is Err ==> r->Err_0.fault() == m->Err_0
        }),
{
    let mut reader = Reader::new(bytes);
    match reader.next_box() {
        Some(header) => {
            header?;
        },
        None => {},
    }
    let meta = parse_table(reader)?;
    match meta.primary_item() {
        Some(primary) => Ok(meta.item_data(bytes, primary)?.into_owned()),
        None => Err(PixelsError::malformed("the file names no primary image item")),
    }
}

/// The pixel format of an image. There is no wide grey format with alpha: such an
/// image is wide RGBA.
pub open spec fn format_of(info: InfoAt) -> PixelFormat {
    let wide = info.config.depth > 8;
    let grey = info.config.subsampling is Monochrome;
    if info.has_alpha {
        if wide {
            PixelFormat::Rgba16
        } else if grey {
            PixelFormat::GrayA8
        } else {
            PixelFormat::Rgba8
        }
    } else if grey {
        if wide {
            PixelFormat::Gray16
        } else {
            PixelFormat::Gray8
        }
    } else if wide {
        PixelFormat::Rgb16
    } else {
        PixelFormat::Rgb8
    }
}

/// The pixel format an image decodes to. Ten- and twelve-bit samples widen to
/// sixteen bits, with their values kept.
pub fn pixel_format(info: &AvifInfo) -> (r: PixelFormat)
    ensures
        r == format_of(info@),
{
    let wide = info.config.bit_depth > 8;
    let monochrome = match info.config.subsampling {
        Subsampling::Monochrome => true,
        _ => false,
    };
    match (monochrome, info.has_alpha, wide) {
        (true, false, false) => PixelFormat::Gray8,
        (true, false, true) => PixelFormat::Gray16,
        (true, true, false) => PixelFormat::GrayA8,
        (true, true, true) => PixelFormat::Rgba16,
        (false, false, false) => PixelFormat::Rgb8,
        (false, false, true) => PixelFormat::Rgb16,
        (false, true, false) => PixelFormat::Rgba8,
        (false, true, true) => PixelFormat::Rgba16,
    }
}

/// A file is never described unless it is also recognised by its first bytes.
pub proof fn lemma_described_is_recognised(f: Seq<u8>)
    requires
        container(f) is Ok,
    ensures
        recognised(f),
{
}

/// Bytes behind a recognised start never change that it is recognised.
pub proof fn lemma_recognised_grows(f: Seq<u8>, more: Seq<u8>)
    requires
        recognised(f),
    ensures
        recognised(f + more),
{
    let k = choose|k: int| 0 <= k && k != 1 && 12 + 4 * k <= f.len() && known_brand(#[trigger] word(f, k));
    assert(word(f + more, k) =~= word(f, k));
    assert((f + more).subrange(4, 8) =~= f.subrange(4, 8));
}

/// A pixel has alpha exactly where the file has an alpha plane for the image.
pub proof fn lemma_alpha_shows(info: InfoAt)
    ensures
        info.has_alpha <==> format_of(info) is GrayA8 || format_of(info) is Rgba8 || format_of(info) is Rgba16,
{
}

/// Whether no configuration among some properties is longer than `n`.
spec fn modest(entries: Seq<Prop>, n: int) -> bool {
    forall|i: int| 0 <= i < entries.len() ==> ((#[trigger] entries[i]) is Av1 ==> entries[i]->Av1_0.obus.len() <= n)
}

/// No configuration of a property store is longer than the file.
proof fn lemma_store_modest(f: Seq<u8>, pos: int, end: int)
    requires
        0 <= pos,
        end <= f.len(),
        store_at(f, pos, end) is Some,
    ensures
        modest(store_at(f, pos, end)->0, f.len() as int),
    decreases end - pos,
{
    if end - pos >= 8 {
        let b = box_at(f, pos, end)->0;
        lemma_box_progress(f, pos, end);
        lemma_store_modest(f, b.end, end);
        reveal(property_at);
        let p = property_at(b.kind, f, b.start, b.end)->0;
        let rest = store_at(f, b.end, end)->0;
        let all = seq![p] + rest;
        assert forall|i: int| 0 <= i < all.len() && (#[trigger] all[i]) is Av1 implies all[i]->Av1_0.obus.len()
            <= f.len() by {
            if i > 0 {
                assert(all[i] == rest[i - 1]);
            }
        }
    }
}

/// No configuration that the property boxes gather is longer than the file.
proof fn lemma_gathered_modest(f: Seq<u8>, pos: int, end: int, entries: Seq<Prop>, links: Seq<Link>)
    requires
        0 <= pos,
        end <= f.len(),
        modest(entries, f.len() as int),
        gathered(f, pos, end, entries, links) is Some,
    ensures
        modest((gathered(f, pos, end, entries, links)->0).0, f.len() as int),
    decreases end - pos,
{
    if end - pos >= 8 {
        let b = box_at(f, pos, end)->0;
        lemma_box_progress(f, pos, end);
        if b.kind == IPCO@ {
            lemma_store_modest(f, b.start, b.end);
            lemma_gathered_modest(f, b.end, end, store_at(f, b.start, b.end)->0, links);
        } else if b.kind == IPMA@ {
            lemma_gathered_modest(f, b.end, end, entries, links + associations_at(f, b.start, b.end)->0);
        } else {
            lemma_gathered_modest(f, b.end, end, entries, links);
        }
    }
}

/// No configuration that an item table says is longer than the file.
proof fn lemma_drafted_modest(f: Seq<u8>, pos: int, end: int, d: Draft)
    requires
        0 <= pos,
        end <= f.len(),
        modest(d.entries, f.len() as int),
        drafted(f, pos, end, d) is Some,
    ensures
        modest((drafted(f, pos, end, d)->0).entries, f.len() as int),
    decreases end - pos,
{
    if end - pos >= 8 {
        let b = box_at(f, pos, end)->0;
        lemma_box_progress(f, pos, end);
        reveal(with_box);
        let e = with_box(f, d, b.kind, b.start, b.end)->0;
        if b.kind == IPRP@ {
            lemma_gathered_modest(f, b.start, b.end, Seq::empty(), Seq::empty());
        }
        assert(modest(e.entries, f.len() as int));
        lemma_drafted_modest(f, b.end, end, e);
    }
}

/// The first box of a type lies in the range it is looked for in.
proof fn lemma_first_inside(f: Seq<u8>, pos: int, end: int, kind: Seq<u8>)
    requires
        first_of(f, pos, end, kind) matches Some(Some(_)),
    ensures
        pos <= (first_of(f, pos, end, kind)->0)->0.start,
        (first_of(f, pos, end, kind)->0)->0.end <= end,
    decreases end - pos,
{
    lemma_box_progress(f, pos, end);
    let b = box_at(f, pos, end)->0;
    if b.kind != kind {
        lemma_first_inside(f, b.end, end, kind);
    }
}

/// No configuration among an item's properties is longer than those of the store.
proof fn lemma_properties_modest(entries: Seq<Prop>, links: Seq<Link>, item: u32, n: int)
    requires
        modest(entries, n),
    ensures
        modest(properties_of(entries, links, item), n),
    decreases links.len(),
{
    if links.len() > 0 {
        lemma_properties_modest(entries, links.drop_last(), item, n);
    }
}

/// The first property of a type is one of them.
proof fn lemma_first_coded(props: Seq<Prop>, code: Seq<u8>, unknown: bool, n: int)
    requires
        modest(props, n),
        first_coded(props, code, unknown) is Some,
    ensures
        first_coded(props, code, unknown)->0 is Av1 ==> first_coded(props, code, unknown)->0->Av1_0.obus.len() <= n,
        first_coded(props, code, unknown)->0.code() == code,
        (first_coded(props, code, unknown)->0 is Unknown) == unknown,
    decreases props.len(),
{
    if first_coded(props.drop_last(), code, unknown) is Some {
        assert(modest(props.drop_last(), n)) by {
            assert forall|i: int|
                0 <= i < props.drop_last().len() && (#[trigger] props.drop_last()[i]) is Av1 implies props.drop_last()[i]->Av1_0.obus.len()
                <= n by {
                assert(props.drop_last()[i] == props[i]);
            }
        }
        lemma_first_coded(props.drop_last(), code, unknown, n);
    } else {
        assert(props.last() == props[props.len() - 1]);
    }
}

/// A property of the type of a configuration is one, if it is interpreted.
proof fn lemma_configuration(p: Prop)
    requires
        p.code() == AV1C@,
        !(p is Unknown),
    ensures
        p is Av1,
{
    assert(AV1C@[0] == 0x61 && AV1C@[1] == 0x76);
    assert(ISPE@[0] != 0x61 && PIXI@[0] != 0x61 && COLR@[0] != 0x61 && IROT@[0] != 0x61);
    assert(IMIR@[0] != 0x61 && PASP@[0] != 0x61 && AUXC@[1] != 0x76);
}

/// Nothing that a file is described by is longer than the file: neither the
/// configuration it carries, nor the coded bytes of its primary image.
pub proof fn lemma_described_is_bounded(f: Seq<u8>)
    requires
        container(f) is Ok,
    ensures
        container(f)->Ok_0.config.obus.len() <= f.len(),
        primary_frame(f) is Ok ==> primary_frame(f)->Ok_0.len() <= f.len(),
{
    let n = f.len() as int;
    let d = table_of(f)->0;
    let first = box_at(f, 0, n)->0;
    lemma_box_progress(f, 0, n);
    lemma_first_inside(f, first.end, n, META@);
    let b = (first_of(f, first.end, n, META@)->0)->0;
    lemma_drafted_modest(f, b.start + 4, b.end, blank());
    let primary = primary_of(d.primary, d.items())->0;
    let id = primary.id as u32;
    let source = if primary.kind == GRID@ {
        targets(d.references, primary.id, DIMG@)[0]
    } else {
        id
    };
    lemma_properties_modest(d.entries, d.links, source, n);
    let props = properties_of(d.entries, d.links, source);
    lemma_first_coded(props, AV1C@, false, n);
    lemma_configuration(first_coded(props, AV1C@, false)->0);
    let idat = match d.idat {
        Some((start, end)) => Some((start as usize, (end - start) as usize)),
        None => None,
    };
    if primary_frame(f) is Ok {
        lemma_item_bounded(f, primary, idat);
    }
}

} // verus!
