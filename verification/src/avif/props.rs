//! Item properties.
//!
//! An item's descriptive data is kept out of line. A store holds property boxes
//! shared by every item of the file, and an association table maps each item to
//! the indices, counted from one, of the properties that describe it.
//!
//! Each association carries an essential bit. An essential property that the
//! decoder does not know makes its item undecodable, since the property may change
//! what the pixels mean; `Properties::essential_unknown` reports such a property.
use super::boxes::{
    be, box_at, header_fault, lemma_be, lemma_box_progress, read_fault, text_end, text_fault, FourCc, Reader,
};
use crate::error::{ErrorCode, Message, Outcome, PixelsError};
use crate::text::{code_name, copied, number};
use vstd::prelude::*;
use vstd::utf8::{decode_utf8, valid_utf8};

verus! {

/// `ipco`: the property store.
pub const IPCO: [u8; 4] = [0x69, 0x70, 0x63, 0x6F];

/// `ipma`: the association table.
pub const IPMA: [u8; 4] = [0x69, 0x70, 0x6D, 0x61];

/// `ispe`: an item's dimensions.
pub const ISPE: [u8; 4] = [0x69, 0x73, 0x70, 0x65];

/// `av1C`: an AV1 configuration.
pub const AV1C: [u8; 4] = [0x61, 0x76, 0x31, 0x43];

/// `pixi`: bit depths.
pub const PIXI: [u8; 4] = [0x70, 0x69, 0x78, 0x69];

/// `colr`: colour information.
pub const COLR: [u8; 4] = [0x63, 0x6F, 0x6C, 0x72];

/// `irot`: a rotation.
pub const IROT: [u8; 4] = [0x69, 0x72, 0x6F, 0x74];

/// `imir`: a mirroring.
pub const IMIR: [u8; 4] = [0x69, 0x6D, 0x69, 0x72];

/// `auxC`: an auxiliary type.
pub const AUXC: [u8; 4] = [0x61, 0x75, 0x78, 0x43];

/// `pasp`: a pixel aspect ratio.
pub const PASP: [u8; 4] = [0x70, 0x61, 0x73, 0x70];

/// `nclx`: colour code points.
pub const NCLX: [u8; 4] = [0x6E, 0x63, 0x6C, 0x78];

/// `rICC`: a restricted colour profile.
pub const RICC: [u8; 4] = [0x72, 0x49, 0x43, 0x43];

/// `prof`: a colour profile.
pub const PROF: [u8; 4] = [0x70, 0x72, 0x6F, 0x66];

/// How the chroma planes are sampled relative to luma.
#[derive(Debug, Clone, Copy, PartialEq, Eq, Structural)]
pub enum Subsampling {
    /// No chroma planes.
    Monochrome,
    /// Chroma at half resolution in both directions.
    Yuv420,
    /// Chroma at half resolution horizontally.
    Yuv422,
    /// Chroma at full resolution.
    Yuv444,
}

impl Subsampling {
    /// The base-two logarithm of how many luma samples share a chroma sample
    /// horizontally.
    pub fn x_shift(self) -> (r: u32)
        ensures
            r == if self == Subsampling::Yuv420 || self == Subsampling::Yuv422 {
                1int
            } else {
                0
            },
    {
        match self {
            Subsampling::Yuv420 | Subsampling::Yuv422 => 1,
            Subsampling::Monochrome | Subsampling::Yuv444 => 0,
        }
    }

    /// The base-two logarithm of how many luma samples share a chroma sample
    /// vertically.
    pub fn y_shift(self) -> (r: u32)
        ensures
            r == if self == Subsampling::Yuv420 {
                1int
            } else {
                0
            },
    {
        match self {
            Subsampling::Yuv420 => 1,
            Subsampling::Monochrome | Subsampling::Yuv422 | Subsampling::Yuv444 => 0,
        }
    }
}

/// An AV1 configuration.
#[derive(Debug, Clone, PartialEq, Eq)]
pub struct Av1Config {
    /// The sequence profile.
    pub seq_profile: u8,
    /// The level.
    pub seq_level_idx0: u8,
    /// The tier.
    pub seq_tier0: u8,
    /// Bits in a sample: 8, 10 or 12.
    pub bit_depth: u8,
    /// How chroma is sampled.
    pub subsampling: Subsampling,
    /// The chroma sample position.
    pub chroma_sample_position: u8,
    /// The units carried in the configuration itself, normally a sequence header.
    pub config_obus: Vec<u8>,
}

/// What an AV1 configuration says.
#[verifier::ext_equal]
pub struct ConfigAt {
    /// The sequence profile.
    pub profile: int,
    /// The level.
    pub level: int,
    /// The tier.
    pub tier: int,
    /// Bits in a sample.
    pub depth: int,
    /// How chroma is sampled.
    pub subsampling: Subsampling,
    /// The chroma sample position.
    pub position: int,
    /// The units carried in the configuration.
    pub obus: Seq<u8>,
}

impl View for Av1Config {
    type V = ConfigAt;

    open spec fn view(&self) -> ConfigAt {
        ConfigAt {
            profile: self.seq_profile as int,
            level: self.seq_level_idx0 as int,
            tier: self.seq_tier0 as int,
            depth: self.bit_depth as int,
            subsampling: self.subsampling,
            position: self.chroma_sample_position as int,
            obus: self.config_obus@,
        }
    }
}

/// An item's dimensions in pixels.
#[derive(Debug, Clone, Copy, PartialEq, Eq, Structural)]
pub struct Extents {
    /// The width.
    pub width: u32,
    /// The height.
    pub height: u32,
}

/// Bit depths.
#[derive(Debug, Clone, PartialEq, Eq)]
pub struct PixelInfo {
    /// Bits in each channel.
    pub bits_per_channel: Vec<u8>,
}

/// Colour information.
#[derive(Debug, Clone, PartialEq, Eq)]
pub enum Colour {
    /// Code points.
    Nclx {
        /// The primaries.
        primaries: u16,
        /// The transfer characteristics.
        transfer: u16,
        /// The matrix coefficients.
        matrix: u16,
        /// Whether samples use the full range.
        full_range: bool,
    },
    /// An embedded profile, carried through.
    Icc(Vec<u8>),
}

/// One entry of the property store.
#[derive(Debug, Clone, PartialEq, Eq)]
pub enum Property {
    /// The item's dimensions.
    Extents(Extents),
    /// The AV1 configuration.
    Av1Config(Av1Config),
    /// Bit depths.
    PixelInfo(PixelInfo),
    /// Colour information.
    Colour(Colour),
    /// Counter-clockwise quarter turns.
    Rotation(u8),
    /// Whether mirroring is about a horizontal axis, top to bottom.
    Mirror(bool),
    /// The auxiliary type.
    AuxiliaryType(String),
    /// Horizontal and vertical spacing.
    PixelAspect(u32, u32),
    /// A property that the decoder does not interpret.
    Unknown(FourCc),
}

/// What a property says.
#[verifier::ext_equal]
pub enum Prop {
    /// Dimensions.
    Extents(Extents),
    /// An AV1 configuration.
    Av1(ConfigAt),
    /// Bit depths.
    Depths(Seq<u8>),
    /// Colour code points: primaries, transfer, matrix, full range.
    Nclx(int, int, int, bool),
    /// A colour profile.
    Icc(Seq<u8>),
    /// Quarter turns.
    Rotation(int),
    /// A mirroring.
    Mirror(bool),
    /// An auxiliary type.
    Auxiliary(Seq<char>),
    /// An aspect ratio.
    Aspect(int, int),
    /// A property that is not interpreted.
    Unknown(Seq<u8>),
}

impl View for Property {
    type V = Prop;

    open spec fn view(&self) -> Prop {
        match self {
            Property::Extents(e) => Prop::Extents(*e),
            Property::Av1Config(c) => Prop::Av1(c@),
            Property::PixelInfo(p) => Prop::Depths(p.bits_per_channel@),
            Property::Colour(c) => c@,
            Property::Rotation(r) => Prop::Rotation(*r as int),
            Property::Mirror(m) => Prop::Mirror(*m),
            Property::AuxiliaryType(t) => Prop::Auxiliary(t@),
            Property::PixelAspect(h, v) => Prop::Aspect(*h as int, *v as int),
            Property::Unknown(k) => Prop::Unknown(k@),
        }
    }
}

impl View for Colour {
    type V = Prop;

    open spec fn view(&self) -> Prop {
        match self {
            Colour::Nclx { primaries, transfer, matrix, full_range } => Prop::Nclx(
                *primaries as int,
                *transfer as int,
                *matrix as int,
                *full_range,
            ),
            Colour::Icc(profile) => Prop::Icc(profile@),
        }
    }
}

impl Prop {
    /// The type of the box a property comes from.
    pub open spec fn code(self) -> Seq<u8> {
        match self {
            Prop::Extents(_) => ISPE@,
            Prop::Av1(_) => AV1C@,
            Prop::Depths(_) => PIXI@,
            Prop::Nclx(_, _, _, _) => COLR@,
            Prop::Icc(_) => COLR@,
            Prop::Rotation(_) => IROT@,
            Prop::Mirror(_) => IMIR@,
            Prop::Auxiliary(_) => AUXC@,
            Prop::Aspect(_, _) => PASP@,
            Prop::Unknown(k) => k,
        }
    }
}

impl Property {
    /// The type of the box this property comes from.
    pub fn kind(&self) -> (r: FourCc)
        ensures
            r@ == self@.code(),
    {
        match self {
            Property::Extents(_) => FourCc(ISPE),
            Property::Av1Config(_) => FourCc(AV1C),
            Property::PixelInfo(_) => FourCc(PIXI),
            Property::Colour(_) => FourCc(COLR),
            Property::Rotation(_) => FourCc(IROT),
            Property::Mirror(_) => FourCc(IMIR),
            Property::AuxiliaryType(_) => FourCc(AUXC),
            Property::PixelAspect(_, _) => FourCc(PASP),
            Property::Unknown(kind) => *kind,
        }
    }
}

/// How chroma is sampled, from the configuration's three bits; there is no format
/// with chroma at half resolution vertically alone.
pub open spec fn sampling(mono: bool, x: bool, y: bool) -> Option<Subsampling> {
    if mono {
        Some(Subsampling::Monochrome)
    } else if x && y {
        Some(Subsampling::Yuv420)
    } else if x {
        Some(Subsampling::Yuv422)
    } else if y {
        None
    } else {
        Some(Subsampling::Yuv444)
    }
}

/// The AV1 configuration between `pos` and `end`: four bytes, the first with its
/// marker set and version 1, then units.
pub open spec fn config_at(f: Seq<u8>, pos: int, end: int) -> Option<ConfigAt> {
    if pos + 4 > end || f[pos] != 0x81 {
        None
    } else {
        let (b, c) = (f[pos + 1] as int, f[pos + 2] as int);
        let profile = b / 32;
        let (high, twelve) = (c / 64 % 2 == 1, c / 32 % 2 == 1);
        match sampling(c / 16 % 2 == 1, c / 8 % 2 == 1, c / 4 % 2 == 1) {
            None => None,
            Some(subsampling) => Some(
                ConfigAt {
                    profile,
                    level: b % 32,
                    tier: c / 128,
                    depth: if !high {
                        8
                    } else if profile == 2 && twelve {
                        12
                    } else {
                        10
                    },
                    subsampling,
                    position: c % 4,
                    obus: f.subrange(pos + 4, end),
                },
            ),
        }
    }
}

/// The words of bytes between `pos` and `end` that are no AV1 configuration.
pub open spec fn config_fault(f: Seq<u8>, pos: int, end: int) -> Seq<char> {
    if pos + 1 > end {
        read_fault(1, pos, end)
    } else if f[pos] < 128 {
        "the av1C marker bit is not set"@
    } else if f[pos] != 0x81 {
        "av1C record version "@ + number(f[pos] - 128) + " is not 1"@
    } else if pos + 2 > end {
        read_fault(1, pos + 1, end)
    } else if pos + 3 > end {
        read_fault(1, pos + 2, end)
    } else if pos + 4 > end {
        read_fault(1, pos + 3, end)
    } else {
        "av1C declares chroma subsampling (0, 1), which AV1 has no such format for"@
    }
}

/// The colour information between `pos` and `end`.
pub open spec fn colour_at(f: Seq<u8>, pos: int, end: int) -> Option<Prop> {
    let kind = f.subrange(pos, pos + 4);
    if pos + 4 > end {
        None
    } else if kind == NCLX@ {
        if pos + 11 <= end {
            Some(Prop::Nclx(be(f, pos + 4, 2), be(f, pos + 6, 2), be(f, pos + 8, 2), f[pos + 10] >= 128))
        } else {
            None
        }
    } else if kind == RICC@ || kind == PROF@ {
        Some(Prop::Icc(f.subrange(pos + 4, end)))
    } else {
        None
    }
}

/// The words of bytes between `pos` and `end` that are no colour information.
pub open spec fn colour_fault(f: Seq<u8>, pos: int, end: int) -> Seq<char> {
    let kind = f.subrange(pos, pos + 4);
    if pos + 4 > end {
        read_fault(4, pos, end)
    } else if kind != NCLX@ {
        "colr declares colour type '"@ + code_name(kind) + "', which is not one this format defines"@
    } else if pos + 6 > end {
        read_fault(2, pos + 4, end)
    } else if pos + 8 > end {
        read_fault(2, pos + 6, end)
    } else if pos + 10 > end {
        read_fault(2, pos + 8, end)
    } else {
        read_fault(1, pos + 10, end)
    }
}

/// The property of a type between `pos` and `end`.
#[verifier::opaque]
pub open spec fn property_at(kind: Seq<u8>, f: Seq<u8>, pos: int, end: int) -> Option<Prop> {
    if kind == ISPE@ {
        if pos + 12 <= end {
            Some(Prop::Extents(Extents { width: be(f, pos + 4, 4) as u32, height: be(f, pos + 8, 4) as u32 }))
        } else {
            None
        }
    } else if kind == AV1C@ {
        match config_at(f, pos, end) {
            Some(c) => Some(Prop::Av1(c)),
            None => None,
        }
    } else if kind == PIXI@ {
        if pos + 5 <= end && pos + 5 + f[pos + 4] <= end {
            Some(Prop::Depths(f.subrange(pos + 5, pos + 5 + f[pos + 4])))
        } else {
            None
        }
    } else if kind == COLR@ {
        colour_at(f, pos, end)
    } else if kind == IROT@ {
        if pos < end {
            Some(Prop::Rotation(f[pos] as int % 4))
        } else {
            None
        }
    } else if kind == IMIR@ {
        if pos < end {
            Some(Prop::Mirror(f[pos] % 2 == 1))
        } else {
            None
        }
    } else if kind == AUXC@ {
        let text = f.subrange(pos + 4, text_end(f, pos + 4, end));
        if pos + 4 <= end && valid_utf8(text) {
            Some(Prop::Auxiliary(decode_utf8(text)))
        } else {
            None
        }
    } else if kind == PASP@ {
        if pos + 8 <= end {
            Some(Prop::Aspect(be(f, pos, 4), be(f, pos + 4, 4)))
        } else {
            None
        }
    } else {
        Some(Prop::Unknown(kind))
    }
}

/// The words of bytes between `pos` and `end` that are no property of a type.
#[verifier::opaque]
pub open spec fn property_fault(kind: Seq<u8>, f: Seq<u8>, pos: int, end: int) -> Seq<char> {
    if kind == AV1C@ {
        config_fault(f, pos, end)
    } else if kind == COLR@ {
        colour_fault(f, pos, end)
    } else if kind == IROT@ || kind == IMIR@ {
        read_fault(1, pos, end)
    } else if pos + 4 > end {
        read_fault(4, pos, end)
    } else if kind == AUXC@ {
        text_fault()
    } else if kind == PIXI@ {
        read_fault(1, if pos + 5 > end { pos + 4 } else { end }, end)
    } else {
        read_fault(4, if pos + 8 > end { pos + 4 } else { pos + 8 }, end)
    }
}

/// Parse an AV1 configuration.
fn parse_av1c(payload: &mut Reader<'_>) -> (r: Outcome<Av1Config>)
    requires
        old(payload).wf(),
    ensures
        ({
            let m = config_at(old(payload).bytes(), old(payload).at(), old(payload).limit());
            &&& r is Ok <==> m is Some
            &&& r is Ok ==> r->Ok_0@ == m->0
        }),
        r is Err ==> r->Err_0.kind() == ErrorCode::Malformed,
        r is Err ==> r->Err_0.words() == config_fault(old(payload).bytes(), old(payload).at(), old(payload).limit()),
{
    let first = payload.u8()?;
    if first / 128 != 1 {
        return Err(PixelsError::malformed("the av1C marker bit is not set"));
    }
    if first != 0x81 {
        return Err(
            Message::new("av1C record version ").then_number((first - 128) as u64).then_text(" is not 1").malformed(),
        );
    }
    let second = payload.u8()?;
    let third = payload.u8()?;
    let _fourth = payload.u8()?;
    let seq_profile = second / 32;
    let high = third / 64 % 2 == 1;
    let twelve = third / 32 % 2 == 1;
    let mono = third / 16 % 2 == 1;
    let sub_x = third / 8 % 2 == 1;
    let sub_y = third / 4 % 2 == 1;
    let bit_depth: u8 = if !high {
        8
    } else if seq_profile == 2 && twelve {
        12
    } else {
        10
    };
    let subsampling = if mono {
        Subsampling::Monochrome
    } else if sub_x && sub_y {
        Subsampling::Yuv420
    } else if sub_x {
        Subsampling::Yuv422
    } else if sub_y {
        return Err(
            PixelsError::malformed("av1C declares chroma subsampling (0, 1), which AV1 has no such format for"),
        );
    } else {
        Subsampling::Yuv444
    };
    Ok(
        Av1Config {
            seq_profile,
            seq_level_idx0: second % 32,
            seq_tier0: third / 128,
            bit_depth,
            subsampling,
            chroma_sample_position: third % 4,
            config_obus: copied(payload.rest()),
        },
    )
}

/// Parse colour information.
fn parse_colr(payload: &mut Reader<'_>) -> (r: Outcome<Colour>)
    requires
        old(payload).wf(),
    ensures
        ({
            let m = colour_at(old(payload).bytes(), old(payload).at(), old(payload).limit());
            &&& r is Ok <==> m is Some
            &&& r is Ok ==> r->Ok_0@ == m->0
        }),
        r is Err ==> r->Err_0.kind() == ErrorCode::Malformed,
        r is Err ==> r->Err_0.words() == colour_fault(old(payload).bytes(), old(payload).at(), old(payload).limit()),
{
    let kind = payload.fourcc()?;
    if kind.is(&NCLX) {
        let primaries = payload.u16()?;
        let transfer = payload.u16()?;
        let matrix = payload.u16()?;
        let full_range = payload.u8()? >= 128;
        Ok(Colour::Nclx { primaries, transfer, matrix, full_range })
    } else if kind.is(&RICC) || kind.is(&PROF) {
        Ok(Colour::Icc(copied(payload.rest())))
    } else {
        Err(
            Message::new("colr declares colour type '").then_code(&kind.0).then_text(
                "', which is not one this format defines",
            ).malformed(),
        )
    }
}

/// Parse the bit depths of `count` channels.
fn parse_depths(payload: &mut Reader<'_>, count: u8) -> (r: Outcome<Vec<u8>>)
    requires
        old(payload).wf(),
    ensures
        r is Ok <==> old(payload).at() + count <= old(payload).limit(),
        r is Ok ==> r->Ok_0@ == old(payload).bytes().subrange(old(payload).at(), old(payload).at() + count),
        r is Err ==> r->Err_0.kind() == ErrorCode::Malformed,
        r is Err ==> r->Err_0.words() == read_fault(1, old(payload).limit(), old(payload).limit()),
{
    let ghost (f, at) = (payload.bytes(), payload.at());
    let mut out: Vec<u8> = Vec::new();
    let mut i: u8 = 0;
    proof {
        payload.lemma_wf();
        assert(f.subrange(at, at) =~= Seq::<u8>::empty());
    }
    while i < count
        invariant
            i <= count,
            payload.moved(*old(payload)),
            f == old(payload).bytes(),
            at == old(payload).at(),
            payload.at() == at + i,
            payload.at() <= payload.limit() <= f.len(),
            0 <= at,
            out@ == f.subrange(at, at + i),
        decreases count - i,
    {
        let bits = payload.u8()?;
        proof {
            payload.lemma_wf();
            assert(f.subrange(at, at + i + 1) =~= f.subrange(at, at + i).push(bits));
        }
        out.push(bits);
        i = i + 1;
    }
    Ok(out)
}

/// Parse one property box.
pub fn parse_property(kind: FourCc, payload: Reader<'_>) -> (r: Outcome<Property>)
    requires
        payload.wf(),
    ensures
        ({
            let m = property_at(kind@, payload.bytes(), payload.at(), payload.limit());
            &&& r is Ok <==> m is Some
            &&& r is Ok ==> r->Ok_0@ == m->0
        }),
        r is Err ==> r->Err_0.kind() == ErrorCode::Malformed,
        r is Err ==> r->Err_0.words() == property_fault(kind@, payload.bytes(), payload.at(), payload.limit()),
{
    proof {
        reveal(property_at);
        reveal(property_fault);
    }
    let mut payload = payload;
    if kind.is(&ISPE) {
        payload.full_box()?;
        let width = payload.u32()?;
        let height = payload.u32()?;
        Ok(Property::Extents(Extents { width, height }))
    } else if kind.is(&AV1C) {
        let config = parse_av1c(&mut payload)?;
        Ok(Property::Av1Config(config))
    } else if kind.is(&PIXI) {
        payload.full_box()?;
        let count = payload.u8()?;
        let bits_per_channel = parse_depths(&mut payload, count)?;
        Ok(Property::PixelInfo(PixelInfo { bits_per_channel }))
    } else if kind.is(&COLR) {
        let colour = parse_colr(&mut payload)?;
        Ok(Property::Colour(colour))
    } else if kind.is(&IROT) {
        let turns = payload.u8()? % 4;
        Ok(Property::Rotation(turns))
    } else if kind.is(&IMIR) {
        let axis = payload.u8()? % 2;
        Ok(Property::Mirror(axis == 1))
    } else if kind.is(&AUXC) {
        payload.full_box()?;
        let urn = payload.cstring()?;
        Ok(Property::AuxiliaryType(urn.to_owned()))
    } else if kind.is(&PASP) {
        let horizontal = payload.u32()?;
        let vertical = payload.u32()?;
        Ok(Property::PixelAspect(horizontal, vertical))
    } else {
        Ok(Property::Unknown(kind))
    }
}

/// One item's association with a property.
#[derive(Debug, Clone, Copy, PartialEq, Eq, Structural)]
pub struct Association {
    /// The property's index, counted from one; zero means no property.
    pub index: u16,
    /// Whether not knowing the property makes the item undecodable.
    pub essential: bool,
}

/// An association and the item it belongs to.
#[derive(Debug, Clone, Copy, PartialEq, Eq, Structural)]
pub struct Link {
    /// The item.
    pub item: u32,
    /// The association.
    pub to: Association,
}

/// The association at `pos`, of one byte or two: the top bit says whether it is
/// essential, the rest is the index.
pub open spec fn association_at(f: Seq<u8>, pos: int, wide: bool) -> Association {
    if wide {
        Association { index: (be(f, pos, 2) % 0x8000) as u16, essential: be(f, pos, 2) >= 0x8000 }
    } else {
        Association { index: (f[pos] % 128) as u16, essential: f[pos] >= 128 }
    }
}

/// How many bytes an association takes.
pub open spec fn association_len(wide: bool) -> int {
    if wide {
        2
    } else {
        1
    }
}

/// How many bytes an item's identifier takes.
pub open spec fn id_len(version: int) -> int {
    if version < 1 {
        2
    } else {
        4
    }
}

/// Where an item's row of associations at `pos` ends.
pub open spec fn row_end(f: Seq<u8>, pos: int, version: int, wide: bool) -> int {
    pos + id_len(version) + 1 + f[pos + id_len(version)] * association_len(wide)
}

/// An item's row of associations at `pos`.
pub open spec fn row_at(f: Seq<u8>, pos: int, version: int, wide: bool) -> Seq<Link> {
    let k = id_len(version);
    Seq::new(
        f[pos + k] as nat,
        |i: int|
            Link {
                item: be(f, pos, k) as u32,
                to: association_at(f, pos + k + 1 + i * association_len(wide), wide),
            },
    )
}

/// `count` rows of associations from `pos` on, where they keep within `end`.
pub open spec fn rows_at(f: Seq<u8>, pos: int, end: int, version: int, wide: bool, count: int) -> Option<Seq<Link>>
    decreases count,
{
    if count <= 0 {
        Some(Seq::empty())
    } else if pos + id_len(version) + 1 > end || row_end(f, pos, version, wide) > end {
        None
    } else {
        match rows_at(f, row_end(f, pos, version, wide), end, version, wide, count - 1) {
            None => None,
            Some(rest) => Some(row_at(f, pos, version, wide) + rest),
        }
    }
}

/// The words of an item's row of associations at `pos` that does not keep within `end`.
pub open spec fn row_fault(pos: int, end: int, version: int, wide: bool) -> Seq<char> {
    let k = id_len(version);
    let w = association_len(wide);
    if pos + k > end {
        read_fault(k, pos, end)
    } else if pos + k + 1 > end {
        read_fault(1, pos + k, end)
    } else {
        read_fault(w, end - (end - pos - k - 1) % w, end)
    }
}

/// The words of `count` rows of associations that do not keep within `end`.
pub open spec fn rows_fault(f: Seq<u8>, pos: int, end: int, version: int, wide: bool, count: int) -> Seq<char>
    decreases count,
{
    if count <= 0 {
        Seq::empty()
    } else if pos + id_len(version) + 1 > end || row_end(f, pos, version, wide) > end {
        row_fault(pos, end, version, wide)
    } else {
        rows_fault(f, row_end(f, pos, version, wide), end, version, wide, count - 1)
    }
}

/// The association table between `pos` and `end`. A count that its bytes cannot
/// hold is malformed.
pub open spec fn associations_at(f: Seq<u8>, pos: int, end: int) -> Option<Seq<Link>> {
    let version = be(f, pos, 4) / 0x100_0000;
    let count = be(f, pos + 4, 4);
    if pos + 8 > end || count * (id_len(version) + 1) > end - pos - 8 {
        None
    } else {
        rows_at(f, pos + 8, end, version, be(f, pos, 4) % 2 == 1, count)
    }
}

/// The words of bytes between `pos` and `end` that are no association table.
pub open spec fn associations_fault(f: Seq<u8>, pos: int, end: int) -> Seq<char> {
    let version = be(f, pos, 4) / 0x100_0000;
    let count = be(f, pos + 4, 4);
    if pos + 4 > end {
        read_fault(4, pos, end)
    } else if pos + 8 > end {
        read_fault(4, pos + 4, end)
    } else if count * (id_len(version) + 1) > end - pos - 8 {
        "ipma declares "@ + number(count) + " entries, more than its "@ + number(end - pos - 8)
            + " remaining bytes can hold"@
    } else {
        rows_fault(f, pos + 8, end, version, be(f, pos, 4) % 2 == 1, count)
    }
}

/// The properties of the store between `pos` and `end`.
pub open spec fn store_at(f: Seq<u8>, pos: int, end: int) -> Option<Seq<Prop>>
    decreases end - pos,
{
    if end - pos < 8 {
        Some(Seq::empty())
    } else {
        match box_at(f, pos, end) {
            None => None,
            Some(b) => match (property_at(b.kind, f, b.start, b.end), store_at(f, b.end, end)) {
                (Some(p), Some(rest)) => Some(seq![p] + rest),
                _ => None,
            },
        }
    }
}

/// The words of bytes between `pos` and `end` that are no store.
pub open spec fn store_fault(f: Seq<u8>, pos: int, end: int) -> Seq<char>
    decreases end - pos,
{
    if end - pos < 8 {
        Seq::empty()
    } else {
        match box_at(f, pos, end) {
            None => header_fault(f, pos, end),
            Some(b) => if property_at(b.kind, f, b.start, b.end) is None {
                property_fault(b.kind, f, b.start, b.end)
            } else {
                store_fault(f, b.end, end)
            },
        }
    }
}

/// The store and the links after the boxes between `pos` and `end`: a store
/// replaces an earlier one, association tables add up.
pub open spec fn gathered(f: Seq<u8>, pos: int, end: int, entries: Seq<Prop>, links: Seq<Link>) -> Option<
    (Seq<Prop>, Seq<Link>),
>
    decreases end - pos,
{
    if end - pos < 8 {
        Some((entries, links))
    } else {
        match box_at(f, pos, end) {
            None => None,
            Some(b) => if b.kind == IPCO@ {
                match store_at(f, b.start, b.end) {
                    None => None,
                    Some(e) => gathered(f, b.end, end, e, links),
                }
            } else if b.kind == IPMA@ {
                match associations_at(f, b.start, b.end) {
                    None => None,
                    Some(l) => gathered(f, b.end, end, entries, links + l),
                }
            } else {
                gathered(f, b.end, end, entries, links)
            },
        }
    }
}

/// The words of boxes between `pos` and `end` of which one is malformed.
pub open spec fn gathered_fault(f: Seq<u8>, pos: int, end: int) -> Seq<char>
    decreases end - pos,
{
    if end - pos < 8 {
        Seq::empty()
    } else {
        match box_at(f, pos, end) {
            None => header_fault(f, pos, end),
            Some(b) => if b.kind == IPCO@ && store_at(f, b.start, b.end) is None {
                store_fault(f, b.start, b.end)
            } else if b.kind == IPMA@ && associations_at(f, b.start, b.end) is None {
                associations_fault(f, b.start, b.end)
            } else {
                gathered_fault(f, b.end, end)
            },
        }
    }
}

/// The property that a link names, if it names one of the store.
pub open spec fn named(entries: Seq<Prop>, link: Link) -> Option<Prop> {
    if 1 <= link.to.index <= entries.len() {
        Some(entries[link.to.index - 1])
    } else {
        None
    }
}

/// The properties of an item, in the order of its associations.
pub open spec fn properties_of(entries: Seq<Prop>, links: Seq<Link>, item: u32) -> Seq<Prop>
    decreases links.len(),
{
    if links.len() == 0 {
        Seq::empty()
    } else {
        let before = properties_of(entries, links.drop_last(), item);
        let link = links.last();
        if link.item == item && named(entries, link) is Some {
            before.push(named(entries, link)->0)
        } else {
            before
        }
    }
}

/// The first essential property of an item that is not interpreted.
pub open spec fn unknown_essential(entries: Seq<Prop>, links: Seq<Link>, item: u32) -> Option<Seq<u8>>
    decreases links.len(),
{
    if links.len() == 0 {
        None
    } else {
        match unknown_essential(entries, links.drop_last(), item) {
            Some(k) => Some(k),
            None => {
                let link = links.last();
                if link.item == item && link.to.essential {
                    match named(entries, link) {
                        Some(Prop::Unknown(k)) => Some(k),
                        _ => None,
                    }
                } else {
                    None
                }
            },
        }
    }
}

/// The first of some properties that has a type.
pub open spec fn first_coded(props: Seq<Prop>, code: Seq<u8>, unknown: bool) -> Option<Prop>
    decreases props.len(),
{
    if props.len() == 0 {
        None
    } else {
        match first_coded(props.drop_last(), code, unknown) {
            Some(p) => Some(p),
            None => if props.last().code() == code && (props.last() is Unknown) == unknown {
                Some(props.last())
            } else {
                None
            },
        }
    }
}

/// The turns of the last rotation among some properties.
pub open spec fn last_rotation(props: Seq<Prop>) -> int
    decreases props.len(),
{
    if props.len() == 0 {
        0
    } else {
        match props.last() {
            Prop::Rotation(turns) => turns,
            _ => last_rotation(props.drop_last()),
        }
    }
}

/// Whether every rotation among some properties is of at most three quarter turns.
pub open spec fn turned(props: Seq<Prop>) -> bool {
    forall|i: int| 0 <= i < props.len() ==> ((#[trigger] props[i]) matches Prop::Rotation(turns) ==> 0 <= turns <= 3)
}

/// A property turns an item by at most three quarters.
proof fn lemma_property_turned(kind: Seq<u8>, f: Seq<u8>, pos: int, end: int)
    ensures
        property_at(kind, f, pos, end) matches Some(Prop::Rotation(turns)) ==> 0 <= turns <= 3,
{
    reveal(property_at);
}

/// The properties of a store turn at most three quarters.
pub proof fn lemma_store_turned(f: Seq<u8>, pos: int, end: int)
    ensures
        store_at(f, pos, end) matches Some(props) ==> turned(props),
    decreases end - pos,
{
    if end - pos >= 8 {
        if let Some(b) = box_at(f, pos, end) {
            lemma_box_progress(f, pos, end);
            lemma_property_turned(b.kind, f, b.start, b.end);
            lemma_store_turned(f, b.end, end);
        }
    }
}

/// Whatever the boxes of a file hold, no property turns an item by more than three
/// quarters.
pub proof fn lemma_gathered_turned(f: Seq<u8>, pos: int, end: int, entries: Seq<Prop>, links: Seq<Link>)
    requires
        turned(entries),
    ensures
        gathered(f, pos, end, entries, links) matches Some((props, _)) ==> turned(props),
    decreases end - pos,
{
    if end - pos >= 8 {
        if let Some(b) = box_at(f, pos, end) {
            lemma_box_progress(f, pos, end);
            if b.kind == IPCO@ {
                lemma_store_turned(f, b.start, b.end);
                if let Some(e) = store_at(f, b.start, b.end) {
                    lemma_gathered_turned(f, b.end, end, e, links);
                }
            } else if b.kind == IPMA@ {
                if let Some(l) = associations_at(f, b.start, b.end) {
                    lemma_gathered_turned(f, b.end, end, entries, links + l);
                }
            } else {
                lemma_gathered_turned(f, b.end, end, entries, links);
            }
        }
    }
}

/// The last rotation among properties that turn at most three quarters does too.
pub proof fn lemma_last_rotation(props: Seq<Prop>)
    requires
        turned(props),
    ensures
        0 <= last_rotation(props) <= 3,
    decreases props.len(),
{
    if props.len() > 0 {
        assert(props.last() == props[props.len() - 1]);
        lemma_last_rotation(props.drop_last());
    }
}

/// An item's properties turn at most three quarters if those of the store do.
pub proof fn lemma_item_turned(entries: Seq<Prop>, links: Seq<Link>, item: u32)
    requires
        turned(entries),
    ensures
        turned(properties_of(entries, links, item)),
    decreases links.len(),
{
    if links.len() > 0 {
        lemma_item_turned(entries, links.drop_last(), item);
    }
}

/// The axis of the last mirroring among some properties.
pub open spec fn last_mirror(props: Seq<Prop>) -> Option<bool>
    decreases props.len(),
{
    if props.len() == 0 {
        None
    } else {
        match props.last() {
            Prop::Mirror(axis) => Some(axis),
            _ => last_mirror(props.drop_last()),
        }
    }
}

/// Parse the property store.
fn parse_ipco(ipco: Reader<'_>) -> (r: Outcome<Vec<Property>>)
    requires
        ipco.wf(),
    ensures
        ({
            let m = store_at(ipco.bytes(), ipco.at(), ipco.limit());
            &&& r is Ok <==> m is Some
            &&& r is Ok ==> views(r->Ok_0@) == m->0
        }),
        r is Err ==> r->Err_0.kind() == ErrorCode::Malformed,
        r is Err ==> r->Err_0.words() == store_fault(ipco.bytes(), ipco.at(), ipco.limit()),
{
    let mut reader = ipco;
    let ghost f = ipco.bytes();
    let mut entries: Vec<Property> = Vec::new();
    assert(views(entries@) =~= Seq::empty());
    loop
        invariant
            reader.wf(),
            reader.bytes() == f,
            f == ipco.bytes(),
            reader.limit() == ipco.limit(),
            joined_store(views(entries@), store_at(f, reader.at(), reader.limit())) == store_at(
                f,
                ipco.at(),
                ipco.limit(),
            ),
            store_fault(f, reader.at(), reader.limit()) == store_fault(f, ipco.at(), ipco.limit()),
        decreases reader.limit() - reader.at(),
    {
        proof {
            reader.lemma_wf();
        }
        let ghost (at, end) = (reader.at(), reader.limit());
        match reader.next_box() {
            None => {
                assert(views(entries@) + Seq::<Prop>::empty() =~= views(entries@));
                return Ok(entries);
            },
            Some(header) => {
                let header = header?;
                let payload = reader.payload(&header);
                let property = parse_property(header.kind, payload)?;
                let ghost before = views(entries@);
                let ghost rest = store_at(f, reader.at(), end);
                proof {
                    if rest is Some {
                        assert(before + (seq![property@] + rest->0) =~= before.push(property@) + rest->0);
                    }
                }
                entries.push(property);
                assert(views(entries@) =~= before.push(property@));
            },
        }
    }
}

/// What some properties say.
pub open spec fn views(s: Seq<Property>) -> Seq<Prop> {
    Seq::new(s.len(), |i: int| s[i]@)
}

/// Properties followed by those of a store.
spec fn joined_store(before: Seq<Prop>, rest: Option<Seq<Prop>>) -> Option<Seq<Prop>> {
    match rest {
        None => None,
        Some(r) => Some(before + r),
    }
}

/// Links followed by those of more rows.
spec fn joined_links(before: Seq<Link>, rest: Option<Seq<Link>>) -> Option<Seq<Link>> {
    match rest {
        None => None,
        Some(r) => Some(before + r),
    }
}

/// Parse one item's row of associations.
fn parse_row(payload: &mut Reader<'_>, version: u8, wide: bool, out: &mut Vec<Link>) -> (r: Outcome<()>)
    requires
        old(payload).wf(),
    ensures
        ({
            let (f, p, e) = (old(payload).bytes(), old(payload).at(), old(payload).limit());
            let k = id_len(version as int);
            &&& r is Ok <==> p + k + 1 <= e && row_end(f, p, version as int, wide) <= e
            &&& r is Ok ==> final(payload).at() == row_end(f, p, version as int, wide) && final(out)@ == old(out)@ + row_at(
                f,
                p,
                version as int,
                wide,
            )
        }),
        r is Err ==> r->Err_0.kind() == ErrorCode::Malformed,
        r is Err ==> r->Err_0.words() == row_fault(old(payload).at(), old(payload).limit(), version as int, wide),
        final(payload).moved(*old(payload)),
{
    let ghost (f, p, e) = (payload.bytes(), payload.at(), payload.limit());
    let ghost k = id_len(version as int);
    let ghost w = association_len(wide);
    let ghost start = out@;
    let item: u32 = if version < 1 {
        payload.u16()? as u32
    } else {
        payload.u32()?
    };
    let count = payload.u8()?;
    let mut i: u8 = 0;
    assert(out@ =~= start + row_at(f, p, version as int, wide).take(0));
    while i < count
        invariant
            i <= count,
            payload.moved(*old(payload)),
            f == old(payload).bytes(),
            p == old(payload).at(),
            e == old(payload).limit(),
            payload.bytes() == f,
            payload.limit() == e,
            k == id_len(version as int),
            w == association_len(wide),
            count == f[p + k],
            item == be(f, p, k),
            payload.at() == p + k + 1 + i * w,
            payload.at() <= e,
            out@ == start + row_at(f, p, version as int, wide).take(i as int),
        decreases count - i,
    {
        proof {
            assert((i + 1) * w == i * w + w) by (nonlinear_arith);
            assert((i + 1) * w <= count * w) by (nonlinear_arith)
                requires
                    i + 1 <= count,
                    w >= 0,
            ;
            lemma_be(f, payload.at());
        }
        let to = if wide {
            let word = payload.u16()?;
            Association { index: word % 0x8000, essential: word >= 0x8000 }
        } else {
            let byte = payload.u8()?;
            Association { index: (byte % 128) as u16, essential: byte >= 128 }
        };
        let link = Link { item, to };
        proof {
            let row = row_at(f, p, version as int, wide);
            assert(link == row[i as int]);
            assert(row.take(i + 1) =~= row.take(i as int).push(link));
        }
        out.push(link);
        assert(out@ =~= start + row_at(f, p, version as int, wide).take(i + 1));
        i = i + 1;
    }
    assert(row_at(f, p, version as int, wide).take(count as int) =~= row_at(f, p, version as int, wide));
    Ok(())
}

/// Parse an association table.
fn parse_ipma(payload: Reader<'_>, out: &mut Vec<Link>) -> (r: Outcome<()>)
    requires
        payload.wf(),
    ensures
        ({
            let m = associations_at(payload.bytes(), payload.at(), payload.limit());
            &&& r is Ok <==> m is Some
            &&& r is Ok ==> final(out)@ == old(out)@ + m->0
        }),
        r is Err ==> r->Err_0.kind() == ErrorCode::Malformed,
        r is Err ==> r->Err_0.words() == associations_fault(payload.bytes(), payload.at(), payload.limit()),
{
    let mut reader = payload;
    let ghost f = payload.bytes();
    let ghost start = out@;
    proof {
        lemma_be(f, payload.at());
    }
    let (version, flags) = reader.full_box()?;
    let count = reader.u32()?;
    let smallest: u64 = if version < 1 {
        3
    } else {
        5
    };
    if count as u64 * smallest > reader.remaining() as u64 {
        return Err(
            Message::new("ipma declares ").then_number(count as u64).then_text(" entries, more than its ").then_number(
                reader.remaining() as u64,
            ).then_text(" remaining bytes can hold").malformed(),
        );
    }
    let wide = flags % 2 == 1;
    let ghost first = reader.at();
    let mut i: u32 = 0;
    assert(out@ =~= start + Seq::<Link>::empty());
    let ghost mut done = Seq::<Link>::empty();
    while i < count
        invariant
            i <= count,
            reader.wf(),
            reader.bytes() == f,
            reader.limit() == payload.limit(),
            f == payload.bytes(),
            out@ == start + done,
            associations_at(f, payload.at(), payload.limit()) == rows_at(
                f,
                first,
                payload.limit(),
                version as int,
                wide,
                count as int,
            ),
            rows_at(f, first, payload.limit(), version as int, wide, count as int) == joined_links(
                done,
                rows_at(f, reader.at(), payload.limit(), version as int, wide, count - i),
            ),
            associations_fault(f, payload.at(), payload.limit()) == rows_fault(
                f,
                reader.at(),
                payload.limit(),
                version as int,
                wide,
                count - i,
            ),
        decreases count - i,
    {
        let ghost at = reader.at();
        let ghost row = row_at(f, at, version as int, wide);
        parse_row(&mut reader, version, wide, out)?;
        proof {
            let rest = rows_at(f, reader.at(), payload.limit(), version as int, wide, count - i - 1);
            if rest is Some {
                assert(done + (row + rest->0) =~= (done + row) + rest->0);
            }
            assert(start + done + row =~= start + (done + row));
            done = done + row;
        }
        i = i + 1;
    }
    assert(done + Seq::<Link>::empty() =~= done);
    Ok(())
}

/// What the property boxes of a file hold.
#[derive(Debug, Clone)]
pub struct Properties {
    entries: Vec<Property>,
    links: Vec<Link>,
}

impl Default for Properties {
    fn default() -> (r: Properties)
        ensures
            r.entries() == Seq::<Prop>::empty(),
            turned(r.entries()),
            r.links() == Seq::<Link>::empty(),
    {
        let r = Properties { entries: Vec::new(), links: Vec::new() };
        assert(r.entries() =~= Seq::<Prop>::empty());
        r
    }
}

impl Properties {
    /// The store.
    pub closed spec fn entries(&self) -> Seq<Prop> {
        views(self.entries@)
    }

    /// The associations, in the order of the file.
    pub closed spec fn links(&self) -> Seq<Link> {
        self.links@
    }

    /// The properties of an item.
    pub open spec fn of(&self, item: u32) -> Seq<Prop> {
        properties_of(self.entries(), self.links(), item)
    }

    /// Parse the payload of a property box.
    pub fn parse(iprp: Reader<'_>) -> (r: Outcome<Properties>)
        requires
            iprp.wf(),
        ensures
            ({
                let m = gathered(iprp.bytes(), iprp.at(), iprp.limit(), Seq::empty(), Seq::empty());
                &&& r is Ok <==> m is Some
                &&& r is Ok ==> r->Ok_0.entries() == (m->0).0 && r->Ok_0.links() == (m->0).1
            }),
            r is Ok ==> turned(r->Ok_0.entries()),
            r is Err ==> r->Err_0.kind() == ErrorCode::Malformed,
            r is Err ==> r->Err_0.words() == gathered_fault(iprp.bytes(), iprp.at(), iprp.limit()),
    {
        let mut reader = iprp;
        let ghost f = iprp.bytes();
        let mut entries: Vec<Property> = Vec::new();
        let mut links: Vec<Link> = Vec::new();
        proof {
            assert(views(entries@) =~= Seq::<Prop>::empty());
            lemma_gathered_turned(f, iprp.at(), iprp.limit(), Seq::empty(), Seq::empty());
        }
        loop
            invariant
                reader.wf(),
                reader.bytes() == f,
                f == iprp.bytes(),
                reader.limit() == iprp.limit(),
                gathered(f, iprp.at(), iprp.limit(), Seq::empty(), Seq::empty()) matches Some((props, _)) ==> turned(
                    props,
                ),
                gathered(f, iprp.at(), iprp.limit(), Seq::empty(), Seq::empty()) == gathered(
                    f,
                    reader.at(),
                    reader.limit(),
                    views(entries@),
                    links@,
                ),
                gathered_fault(f, iprp.at(), iprp.limit()) == gathered_fault(f, reader.at(), reader.limit()),
            decreases reader.limit() - reader.at(),
        {
            proof {
                reader.lemma_wf();
            }
            match reader.next_box() {
                None => {
                    return Ok(Properties { entries, links });
                },
                Some(header) => {
                    let header = header?;
                    let payload = reader.payload(&header);
                    if header.kind.is(&IPCO) {
                        entries = parse_ipco(payload)?;
                    } else if header.kind.is(&IPMA) {
                        parse_ipma(payload, &mut links)?;
                    }
                },
            }
        }
    }

    /// Every property of an item, in the order of its associations.
    pub fn for_item(&self, item_id: u32) -> (r: Vec<&Property>)
        ensures
            r@.len() == self.of(item_id).len(),
            forall|i: int| 0 <= i < r@.len() ==> (#[trigger] r@[i])@ == self.of(item_id)[i],
    {
        let mut out: Vec<&Property> = Vec::new();
        let mut i: usize = 0;
        assert(self.links@.take(0) =~= Seq::<Link>::empty());
        while i < self.links.len()
            invariant
                i <= self.links@.len(),
                out@.len() == properties_of(self.entries(), self.links@.take(i as int), item_id).len(),
                forall|k: int|
                    0 <= k < out@.len() ==> (#[trigger] out@[k])@ == properties_of(
                        self.entries(),
                        self.links@.take(i as int),
                        item_id,
                    )[k],
            decreases self.links@.len() - i,
        {
            let link = self.links[i];
            proof {
                let t = self.links@.take(i + 1);
                assert(t.drop_last() =~= self.links@.take(i as int));
                assert(t.last() == link);
            }
            if link.item == item_id && link.to.index >= 1 && (link.to.index as usize) <= self.entries.len() {
                out.push(&self.entries[link.to.index as usize - 1]);
            }
            i = i + 1;
        }
        assert(self.links@.take(self.links@.len() as int) =~= self.links@);
        out
    }

    /// The type of an item's first essential property that the decoder does not
    /// interpret, if there is one.
    pub fn essential_unknown(&self, item_id: u32) -> (r: Option<FourCc>)
        ensures
            ({
                let m = unknown_essential(self.entries(), self.links(), item_id);
                &&& r is Some <==> m is Some
                &&& r is Some ==> r->0@ == m->0
            }),
    {
        let mut i: usize = 0;
        assert(self.links@.take(0) =~= Seq::<Link>::empty());
        while i < self.links.len()
            invariant
                i <= self.links@.len(),
                unknown_essential(self.entries(), self.links@.take(i as int), item_id) is None,
            decreases self.links@.len() - i,
        {
            let link = self.links[i];
            proof {
                let t = self.links@.take(i + 1);
                assert(t.drop_last() =~= self.links@.take(i as int));
                assert(t.last() == link);
            }
            if link.item == item_id && link.to.essential && link.to.index >= 1 && (link.to.index as usize)
                <= self.entries.len() {
                match &self.entries[link.to.index as usize - 1] {
                    Property::Unknown(kind) => {
                        proof {
                            lemma_unknown_stays(self.entries(), self.links@, item_id, i + 1);
                        }
                        return Some(*kind);
                    },
                    _ => {},
                }
            }
            i = i + 1;
        }
        assert(self.links@.take(self.links@.len() as int) =~= self.links@);
        None
    }

    /// An item's dimensions.
    pub fn extents(&self, item_id: u32) -> (r: Option<Extents>)
        ensures
            ({
                let m = first_coded(self.of(item_id), ISPE@, false);
                &&& r is Some <==> m is Some
                &&& r is Some ==> m->0 == Prop::Extents(r->0)
            }),
    {
        match self.first(item_id, &ISPE) {
            Some(Property::Extents(e)) => Some(*e),
            _ => None,
        }
    }

    /// An item's AV1 configuration.
    pub fn av1_config(&self, item_id: u32) -> (r: Option<&Av1Config>)
        ensures
            ({
                let m = first_coded(self.of(item_id), AV1C@, false);
                &&& r is Some <==> m is Some
                &&& r is Some ==> m->0 == Prop::Av1(r->0@)
            }),
    {
        match self.first(item_id, &AV1C) {
            Some(Property::Av1Config(c)) => Some(c),
            _ => None,
        }
    }

    /// An item's colour information.
    pub fn colour(&self, item_id: u32) -> (r: Option<&Colour>)
        ensures
            ({
                let m = first_coded(self.of(item_id), COLR@, false);
                &&& r is Some <==> m is Some
                &&& r is Some ==> m->0 == r->0@
            }),
    {
        match self.first(item_id, &COLR) {
            Some(Property::Colour(c)) => Some(c),
            _ => None,
        }
    }

    /// An item's auxiliary type.
    pub fn auxiliary_type(&self, item_id: u32) -> (r: Option<&str>)
        ensures
            ({
                let m = first_coded(self.of(item_id), AUXC@, false);
                &&& r is Some <==> m is Some
                &&& r is Some ==> m->0 == Prop::Auxiliary(r->0@)
            }),
    {
        match self.first(item_id, &AUXC) {
            Some(Property::AuxiliaryType(t)) => Some(t.as_str()),
            _ => None,
        }
    }

    /// The first property of an item that is interpreted and has a type.
    fn first(&self, item_id: u32, code: &[u8; 4]) -> (r: Option<&Property>)
        ensures
            ({
                let m = first_coded(self.of(item_id), code@, false);
                &&& r is Some <==> m is Some
                &&& r is Some ==> r->0@ == m->0 && r->0@.code() == code@ && !(r->0@ is Unknown)
            }),
    {
        let all = self.for_item(item_id);
        let ghost props = self.of(item_id);
        let mut i: usize = 0;
        while i < all.len()
            invariant
                i <= all@.len(),
                all@.len() == props.len(),
                forall|k: int| 0 <= k < all@.len() ==> (#[trigger] all@[k])@ == props[k],
                props == self.of(item_id),
                first_coded(props.take(i as int), code@, false) is None,
            decreases all@.len() - i,
        {
            let p = all[i];
            proof {
                let t = props.take(i + 1);
                assert(t.drop_last() =~= props.take(i as int));
                assert(t.last() == p@);
            }
            let known = match p {
                Property::Unknown(_) => false,
                _ => true,
            };
            if known && p.kind().is(code) {
                proof {
                    lemma_first_stays(props, code@, i + 1);
                }
                return Some(p);
            }
            i = i + 1;
        }
        assert(props.take(props.len() as int) =~= props);
        None
    }

    /// An item's rotation, in counter-clockwise quarter turns, and its mirroring.
    pub fn orientation(&self, item_id: u32) -> (r: (u8, Option<bool>))
        ensures
            r.0 == last_rotation(self.of(item_id)),
            turned(self.entries()) ==> r.0 <= 3,
            r.1 == last_mirror(self.of(item_id)),
    {
        let all = self.for_item(item_id);
        let ghost props = self.of(item_id);
        proof {
            if turned(self.entries()) {
                lemma_item_turned(self.entries(), self.links(), item_id);
                lemma_last_rotation(props);
            }
        }
        let mut rotation: u8 = 0;
        let mut mirror: Option<bool> = None;
        let mut i: usize = 0;
        while i < all.len()
            invariant
                i <= all@.len(),
                all@.len() == props.len(),
                forall|k: int| 0 <= k < all@.len() ==> (#[trigger] all@[k])@ == props[k],
                rotation == last_rotation(props.take(i as int)),
                mirror == last_mirror(props.take(i as int)),
            decreases all@.len() - i,
        {
            proof {
                let t = props.take(i + 1);
                assert(t.drop_last() =~= props.take(i as int));
                assert(t.last() == all@[i as int]@);
            }
            match all[i] {
                Property::Rotation(turns) => {
                    rotation = *turns;
                },
                Property::Mirror(axis) => {
                    mirror = Some(*axis);
                },
                _ => {},
            }
            i = i + 1;
        }
        assert(props.take(props.len() as int) =~= props);
        (rotation, mirror)
    }
}

/// The first such property among some stays the first among more.
proof fn lemma_first_stays(props: Seq<Prop>, code: Seq<u8>, n: int)
    requires
        0 <= n <= props.len(),
        first_coded(props.take(n), code, false) is Some,
    ensures
        first_coded(props, code, false) == first_coded(props.take(n), code, false),
    decreases props.len() - n,
{
    if n < props.len() {
        let t = props.take(n + 1);
        assert(t.drop_last() =~= props.take(n));
        lemma_first_stays(props, code, n + 1);
    } else {
        assert(props.take(n) =~= props);
    }
}

/// The first such link among some stays the first among more.
proof fn lemma_unknown_stays(entries: Seq<Prop>, links: Seq<Link>, item: u32, n: int)
    requires
        0 <= n <= links.len(),
        unknown_essential(entries, links.take(n), item) is Some,
    ensures
        unknown_essential(entries, links, item) == unknown_essential(entries, links.take(n), item),
    decreases links.len() - n,
{
    if n < links.len() {
        let t = links.take(n + 1);
        assert(t.drop_last() =~= links.take(n));
        lemma_unknown_stays(entries, links, item, n + 1);
    } else {
        assert(links.take(n) =~= links);
    }
}

} // verus!
