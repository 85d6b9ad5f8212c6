//! The Open Bitstream Unit layer.
//!
//! An AV1 stream is a sequence of OBUs, each a one- or two-byte header followed by
//! an optional size and a payload. This module splits a byte buffer into borrowed
//! OBUs without interpreting their contents. A sizeless OBU extends to the end of
//! the buffer.
use super::bits::{BitReader, bit_addressable, bits, ended, flag_at, leb128_at, leb128_fault};
use crate::error::{ErrorCode, Outcome, PixelsError};
use vstd::prelude::*;

verus! {

/// The kind of an OBU.
#[derive(Debug, Clone, Copy, PartialEq, Eq, Structural)]
pub enum ObuType {
    /// A sequence header (1).
    SequenceHeader,
    /// A temporal delimiter (2).
    TemporalDelimiter,
    /// A frame header (3).
    FrameHeader,
    /// A tile group (4).
    TileGroup,
    /// Metadata (5).
    Metadata,
    /// A frame header immediately followed by tile data (6).
    Frame,
    /// A repeated frame header (7).
    RedundantFrameHeader,
    /// A tile list (8).
    TileList,
    /// Padding (15).
    Padding,
    /// Any reserved or unknown type, carried through so a stream that uses one is
    /// skipped rather than rejected.
    Reserved(u8),
}

/// The kind a coded type names.
pub open spec fn obu_type(value: u32) -> ObuType {
    if value == 1 {
        ObuType::SequenceHeader
    } else if value == 2 {
        ObuType::TemporalDelimiter
    } else if value == 3 {
        ObuType::FrameHeader
    } else if value == 4 {
        ObuType::TileGroup
    } else if value == 5 {
        ObuType::Metadata
    } else if value == 6 {
        ObuType::Frame
    } else if value == 7 {
        ObuType::RedundantFrameHeader
    } else if value == 8 {
        ObuType::TileList
    } else if value == 15 {
        ObuType::Padding
    } else {
        ObuType::Reserved(value as u8)
    }
}

impl ObuType {
    /// The kind a coded type names.
    pub fn from_bits(value: u32) -> (r: ObuType)
        ensures
            r == obu_type(value),
    {
        match value {
            1 => ObuType::SequenceHeader,
            2 => ObuType::TemporalDelimiter,
            3 => ObuType::FrameHeader,
            4 => ObuType::TileGroup,
            5 => ObuType::Metadata,
            6 => ObuType::Frame,
            7 => ObuType::RedundantFrameHeader,
            8 => ObuType::TileList,
            15 => ObuType::Padding,
            other => ObuType::Reserved(other as u8),
        }
    }
}

/// A parsed OBU header.
#[derive(Debug, Clone, Copy, PartialEq, Eq, Structural)]
pub struct ObuHeader {
    /// The OBU type.
    pub kind: ObuType,
    /// `temporal_id` from the extension header, or 0 when absent.
    pub temporal_id: u8,
    /// `spatial_id` from the extension header, or 0 when absent.
    pub spatial_id: u8,
}

/// A single OBU: its header and a borrow of its payload bytes.
#[derive(Debug, Clone, Copy)]
pub struct Obu<'a> {
    /// The parsed header.
    pub header: ObuHeader,
    /// The payload.
    pub payload: &'a [u8],
    /// The byte offset of `payload` within the buffer it was split from.
    pub payload_start: usize,
}

/// What an OBU says: its header, and where its payload lies in the stream.
pub struct ObuModel {
    /// The parsed header.
    pub header: ObuHeader,
    /// The offset of the payload's first byte.
    pub start: int,
    /// The offset one past the payload's last byte.
    pub end: int,
}

/// The OBU whose header starts at byte `pos` of `data`, if one does: the header's
/// forbidden bit is clear, and the data holds the header and as many bytes of
/// payload as it declares.
pub open spec fn obu_at(data: Seq<u8>, pos: int) -> Option<ObuModel> {
    let rest = data.subrange(pos, data.len() as int);
    let extended = flag_at(rest, 5);
    let h = if extended {
        16int
    } else {
        8
    };
    let header = ObuHeader {
        kind: obu_type(bits(rest, 1, 4) as u32),
        temporal_id: if extended {
            bits(rest, 8, 3) as u8
        } else {
            0
        },
        spatial_id: if extended {
            bits(rest, 11, 2) as u8
        } else {
            0
        },
    };
    let size = if flag_at(rest, 6) {
        leb128_at(rest, h, 0)
    } else {
        Some((rest.len() - h / 8, h))
    };
    if bits(rest, 0, 1) != 0 || h > 8 * rest.len() {
        None
    } else {
        match size {
            Some((len, p)) if p <= 8 * rest.len() && pos + p / 8 + len <= data.len() => Some(
                ObuModel { header, start: pos + p / 8, end: pos + p / 8 + len },
            ),
            _ => None,
        }
    }
}

/// The words of bytes from `pos` on that start with no OBU.
pub open spec fn obu_fault(data: Seq<u8>, pos: int) -> Seq<char> {
    let rest = data.subrange(pos, data.len() as int);
    let total = 8 * rest.len();
    let h = if flag_at(rest, 5) {
        16int
    } else {
        8
    };
    let sized = flag_at(rest, 6);
    let size = leb128_at(rest, h, 0);
    if bits(rest, 0, 1) != 0 {
        "an AV1 OBU forbidden bit was set"@
    } else if h > total {
        ended()
    } else if sized && (size is None || (size->0).1 > total) {
        leb128_fault(h, total as int)
    } else {
        "an AV1 OBU declares more bytes than the stream holds"@
    }
}

/// The OBUs of `data` from byte `pos` on, if all of the rest splits into OBUs.
pub open spec fn obus_from(data: Seq<u8>, pos: int) -> Option<Seq<ObuModel>>
    decreases data.len() - pos,
{
    if pos >= data.len() {
        Some(Seq::empty())
    } else {
        match obu_at(data, pos) {
            Some(o) if o.end > pos => match obus_from(data, o.end) {
                Some(more) => Some(seq![o] + more),
                None => None,
            },
            _ => None,
        }
    }
}

/// The words of bytes from `pos` on that do not split into OBUs.
pub open spec fn obus_fault(data: Seq<u8>, pos: int) -> Seq<char>
    decreases data.len() - pos,
{
    match obu_at(data, pos) {
        Some(o) if pos < o.end <= data.len() => obus_fault(data, o.end),
        _ => obu_fault(data, pos),
    }
}

/// `o` is the OBU that `m` describes, over the stream `data`.
pub open spec fn is_obu(o: Obu<'_>, m: ObuModel, data: Seq<u8>) -> bool {
    &&& o.header == m.header
    &&& o.payload_start == m.start
    &&& 0 <= m.start <= m.end <= data.len()
    &&& o.payload@ == data.subrange(m.start, m.end)
}

/// A base-128 value is never negative and ends on a byte boundary past its start.
proof fn lemma_leb128_shape(data: Seq<u8>, pos: int, i: int)
    requires
        pos % 8 == 0,
    ensures
        leb128_at(data, pos, i) matches Some((v, end)) ==> v >= 0 && end >= pos + 8 && end % 8 == 0,
    decreases 8 - i,
{
    if i < 8 {
        lemma_leb128_shape(data, pos + 8, i + 1);
        super::bits::lemma_bits_bound(data, pos, 8);
        crate::math::lemma_p2_pos(7 * i);
        let byte = bits(data, pos, 8);
        assert((byte % 128) * crate::math::p2(7 * i) >= 0) by (nonlinear_arith)
            requires
                byte % 128 >= 0,
                crate::math::p2(7 * i) >= 0,
        ;
    }
}

impl<'a> Obu<'a> {
    /// Read the OBU whose header starts at byte `pos`.
    fn parse_at(data: &'a [u8], pos: usize) -> (r: Outcome<Obu<'a>>)
        requires
            bit_addressable(data@.len()),
            pos < data@.len(),
        ensures
            r is Ok <==> obu_at(data@, pos as int) is Some,
            r is Ok ==> is_obu(r->Ok_0, obu_at(data@, pos as int)->0, data@),
            r is Ok ==> pos < obu_at(data@, pos as int)->0.end,
            r is Ok ==> r->Ok_0.header.temporal_id < 8 && r->Ok_0.header.spatial_id < 4,
            r is Err ==> r->Err_0.kind() == ErrorCode::Malformed,
            r is Err ==> r->Err_0.words() == obu_fault(data@, pos as int),
    {
        let rest = &data[pos..data.len()];
        let mut reader = BitReader::new(rest);
        let ghost bytes = rest@;
        proof {
            super::bits::lemma_bits_bound(bytes, 1, 4);
            crate::math::lemma_p2_values();
        }
        if reader.f(1)? != 0 {
            return Err(PixelsError::malformed("an AV1 OBU forbidden bit was set"));
        }
        let kind = ObuType::from_bits(reader.f(4)?);
        let extension_flag = reader.flag()?;
        let has_size_field = reader.flag()?;
        let _reserved = reader.f(1)?;
        let (temporal_id, spatial_id) = if extension_flag {
            let temporal_id = reader.f(3)? as u8;
            let spatial_id = reader.f(2)? as u8;
            let _extension_reserved = reader.f(3)?;
            (temporal_id, spatial_id)
        } else {
            (0u8, 0u8)
        };
        let ghost h = reader.at();
        proof {
            lemma_leb128_shape(bytes, h, 0);
        }
        let payload_len: u64 = if has_size_field {
            reader.leb128()?
        } else {
            (rest.len() - reader.byte_position()) as u64
        };
        let payload_start = pos + reader.byte_position();
        if payload_len > (data.len() - payload_start) as u64 {
            return Err(PixelsError::malformed("an AV1 OBU declares more bytes than the stream holds"));
        }
        let payload_end = payload_start + payload_len as usize;
        Ok(
            Obu {
                header: ObuHeader { kind, temporal_id, spatial_id },
                payload: &data[payload_start..payload_end],
                payload_start,
            },
        )
    }

    /// Split a byte buffer into its OBUs. Rejects a header whose forbidden bit is
    /// set and a size that would run past the buffer.
    pub fn parse_stream(data: &'a [u8]) -> (r: Outcome<Vec<Obu<'a>>>)
        requires
            bit_addressable(data@.len()),
        ensures
            r is Ok <==> obus_from(data@, 0) is Some,
            r is Ok ==> r->Ok_0@.len() == obus_from(data@, 0)->0.len(),
            r is Ok ==> forall|i: int|
                0 <= i < r->Ok_0@.len() ==> is_obu(#[trigger] r->Ok_0@[i], obus_from(data@, 0)->0[i], data@)
                    && r->Ok_0@[i].header.temporal_id < 8 && r->Ok_0@[i].header.spatial_id < 4,
            r is Err ==> r->Err_0.kind() == ErrorCode::Malformed,
            r is Err ==> r->Err_0.words() == obus_fault(data@, 0),
    {
        let mut obus: Vec<Obu<'a>> = Vec::new();
        let mut pos: usize = 0;
        let ghost mut done: Seq<ObuModel> = Seq::empty();
        while pos < data.len()
            invariant
                pos <= data@.len(),
                bit_addressable(data@.len()),
                obus@.len() == done.len(),
                forall|i: int|
                    0 <= i < obus@.len() ==> is_obu(#[trigger] obus@[i], done[i], data@)
                        && obus@[i].header.temporal_id < 8 && obus@[i].header.spatial_id < 4,
                obus_from(data@, 0) == (match obus_from(data@, pos as int) {
                    Some(more) => Some(done + more),
                    None => None,
                }),
                obus_fault(data@, 0) == obus_fault(data@, pos as int),
            decreases data@.len() - pos,
        {
            let obu = Obu::parse_at(data, pos)?;
            let ghost m = obu_at(data@, pos as int)->0;
            let ghost before = done;
            let end = obu.payload_start + obu.payload.len();
            proof {
                done = before.push(m);
                if let Some(more) = obus_from(data@, end as int) {
                    assert(before + (seq![m] + more) =~= done + more);
                }
            }
            obus.push(obu);
            pos = end;
        }
        assert(done + Seq::<ObuModel>::empty() =~= done);
        Ok(obus)
    }
}

} // verus!
