//! The still-picture front end: from OBUs to parsed headers.
//!
//! The sequence header arrives in the configuration OBUs; the coded frame arrives
//! as a frame OBU (a frame header immediately followed by its tile group) or as a
//! separate frame header and tile group. Either way this gives the two parsed
//! headers and where the tile data lies.
use super::bits::{BitReader, align8, bit_addressable, bits, pad_fault};
use super::frame::{FrameHeader, FrameModel, frame_at, frame_failure};
use super::obu::{Obu, ObuModel, ObuType, is_obu, obus_fault, obus_from};
use super::seq::{SequenceHeader, SequenceModel, sequence_at, sequence_fault};
use crate::error::{ErrorCode, Fault, Outcome, PixelsError, fails_saying, malformed};
use vstd::prelude::*;

verus! {

/// The parsed headers of a still picture, and where its tile data lies.
#[derive(Debug, Clone)]
pub struct StillPicture {
    /// The sequence header governing the frame.
    pub sequence: SequenceHeader,
    /// The frame header.
    pub frame: FrameHeader,
    /// The byte offset of the tile data within the coded frame.
    pub tile_data_offset: usize,
    /// The length in bytes of the tile data.
    pub tile_data_len: usize,
}

/// The sequence header that `payload` holds, if it is well formed.
pub open spec fn sequence_in(payload: Seq<u8>) -> Option<SequenceModel> {
    let (m, end) = sequence_at(payload, 0);
    if m.profile <= 2 && end <= 8 * payload.len() {
        Some(m)
    } else {
        None
    }
}

/// The bytes of an OBU's payload.
pub open spec fn payload_of(o: ObuModel, data: Seq<u8>) -> Seq<u8> {
    data.subrange(o.start, o.end)
}

/// The first sequence header among the OBUs from the `i`-th on, if there is one and
/// it is well formed.
pub open spec fn first_sequence(obus: Seq<ObuModel>, data: Seq<u8>, i: int) -> Option<SequenceModel>
    decreases obus.len() - i,
{
    if i >= obus.len() {
        None
    } else if obus[i].header.kind == ObuType::SequenceHeader {
        sequence_in(payload_of(obus[i], data))
    } else {
        first_sequence(obus, data, i + 1)
    }
}

/// The sequence header of a run of configuration OBUs.
pub open spec fn config_sequence(config: Seq<u8>) -> Option<SequenceModel> {
    match obus_from(config, 0) {
        Some(obus) => first_sequence(obus, config, 0),
        None => None,
    }
}

/// The words of a sequence header that is missing from `obus`, from the `i`-th on, or
/// that is not one.
pub open spec fn first_fault(obus: Seq<ObuModel>, data: Seq<u8>, i: int) -> Seq<char>
    decreases obus.len() - i,
{
    if i >= obus.len() {
        "the av1C configuration OBUs contain no sequence header"@
    } else if obus[i].header.kind == ObuType::SequenceHeader {
        sequence_fault(payload_of(obus[i], data), 0)
    } else {
        first_fault(obus, data, i + 1)
    }
}

/// The words of configuration OBUs without a sequence header.
pub open spec fn config_fault(config: Seq<u8>) -> Seq<char> {
    match obus_from(config, 0) {
        Some(obus) => first_fault(obus, config, 0),
        None => obus_fault(config, 0),
    }
}

/// What has been found so far: the sequence header in force, and the frame header
/// with the offset and length of its tile data.
pub struct Found {
    /// The sequence header in force.
    pub sequence: Option<SequenceModel>,
    /// The frame header, and where its tile data lies.
    pub frame: Option<(FrameModel, int, int)>,
}

/// The words of a frame header without a sequence header before it.
pub open spec fn missing_sequence() -> Seq<char> {
    "a frame header was reached before any sequence header"@
}

/// What one more OBU adds.
pub open spec fn still_step(f: Found, o: ObuModel, data: Seq<u8>) -> Result<Found, Fault> {
    let payload = payload_of(o, data);
    let (t, s) = (o.header.temporal_id as int, o.header.spatial_id as int);
    if o.header.kind == ObuType::SequenceHeader {
        match sequence_in(payload) {
            Some(m) => Ok(Found { sequence: Some(m), ..f }),
            None => Err(malformed(sequence_fault(payload, 0))),
        }
    } else if o.header.kind == ObuType::Frame || o.header.kind == ObuType::FrameHeader || o.header.kind
        == ObuType::RedundantFrameHeader {
        match f.sequence {
            None => Err(malformed(missing_sequence())),
            Some(m) => match frame_failure(payload, 0, m, t, s) {
                Some(fault) => Err(fault),
                None => {
                    let (frame, end) = frame_at(payload, 0, m, t, s);
                    let used = align8(end) / 8;
                    if o.header.kind != ObuType::Frame {
                        Ok(Found { frame: Some((frame, 0, 0)), ..f })
                    } else if bits(payload, end, align8(end) - end) != 0 {
                        Err(malformed(pad_fault()))
                    } else {
                        Ok(Found { frame: Some((frame, o.start + used, o.end - o.start - used)), ..f })
                    }
                },
            },
        }
    } else if o.header.kind == ObuType::TileGroup {
        match f.frame {
            Some((frame, _, len)) if len == 0 => Ok(Found { frame: Some((frame, o.start, o.end - o.start)), ..f }),
            _ => Ok(f),
        }
    } else {
        Ok(f)
    }
}

/// What the OBUs from the `i`-th on add.
pub open spec fn still_from(f: Found, obus: Seq<ObuModel>, data: Seq<u8>, i: int) -> Result<Found, Fault>
    decreases obus.len() - i,
{
    if i >= obus.len() {
        Ok(f)
    } else {
        match still_step(f, obus[i], data) {
            Ok(g) => still_from(g, obus, data, i + 1),
            Err(fault) => Err(fault),
        }
    }
}

/// The headers of the still picture in `data`, with the configuration OBUs
/// `config`: the two headers, and the offset and length of the tile data.
pub open spec fn still_in(config: Seq<u8>, data: Seq<u8>) -> Result<
    (SequenceModel, FrameModel, int, int),
    Fault,
> {
    match obus_from(data, 0) {
        None => Err(malformed(obus_fault(data, 0))),
        Some(obus) => match still_from(
            Found { sequence: config_sequence(config), frame: None },
            obus,
            data,
            0,
        ) {
            Err(fault) => Err(fault),
            Ok(f) => match (f.sequence, f.frame) {
                (Some(m), Some((frame, offset, len))) => Ok((m, frame, offset, len)),
                (None, _) => Err(malformed(missing_sequence())),
                (_, None) => Err(malformed("the coded frame contains no frame header"@)),
            },
        },
    }
}

/// Parse the sequence header that `payload` holds.
fn parse_sequence(payload: &[u8]) -> (r: Outcome<SequenceHeader>)
    requires
        bit_addressable(payload@.len()),
    ensures
        r is Ok <==> sequence_in(payload@) is Some,
        r is Ok ==> r->Ok_0.wf() && Some(r->Ok_0.model()) == sequence_in(payload@),
        r is Err ==> r->Err_0.kind() == ErrorCode::Malformed,
        r is Err ==> r->Err_0.words() == sequence_fault(payload@, 0),
{
    let mut reader = BitReader::new(payload);
    SequenceHeader::parse(&mut reader)
}

/// Parse the sequence header out of a run of configuration OBUs. The first one
/// found wins; metadata and padding around it are ignored.
pub fn sequence_header_from_config(config_obus: &[u8]) -> (r: Outcome<SequenceHeader>)
    requires
        bit_addressable(config_obus@.len()),
    ensures
        r is Ok <==> config_sequence(config_obus@) is Some,
        r is Ok ==> r->Ok_0.wf() && Some(r->Ok_0.model()) == config_sequence(config_obus@),
        r is Err ==> r->Err_0.kind() == ErrorCode::Malformed,
        r is Err ==> r->Err_0.words() == config_fault(config_obus@),
{
    let obus = Obu::parse_stream(config_obus)?;
    let ghost models = obus_from(config_obus@, 0)->0;
    let mut i: usize = 0;
    while i < obus.len()
        invariant
            i <= obus@.len(),
            bit_addressable(config_obus@.len()),
            obus_from(config_obus@, 0) == Some(models),
            models.len() == obus@.len(),
            forall|j: int| 0 <= j < obus@.len() ==> is_obu(#[trigger] obus@[j], models[j], config_obus@),
            config_sequence(config_obus@) == first_sequence(models, config_obus@, i as int),
            config_fault(config_obus@) == first_fault(models, config_obus@, i as int),
        decreases obus@.len() - i,
    {
        let obu = obus[i];
        assert(is_obu(obus@[i as int], models[i as int], config_obus@));
        if obu.header.kind == ObuType::SequenceHeader {
            return parse_sequence(obu.payload);
        }
        i = i + 1;
    }
    Err(PixelsError::malformed("the av1C configuration OBUs contain no sequence header"))
}

/// A parsed frame header, and where its tile data lies.
struct FoundFrame {
    header: FrameHeader,
    offset: usize,
    len: usize,
}

/// What has been found so far, as parsed.
struct Progress {
    sequence: Option<SequenceHeader>,
    frame: Option<FoundFrame>,
}

impl Progress {
    spec fn model(&self) -> Found {
        Found {
            sequence: match self.sequence {
                Some(s) => Some(s.model()),
                None => None,
            },
            frame: match self.frame {
                Some(f) => Some((f.header.model(), f.offset as int, f.len as int)),
                None => None,
            },
        }
    }

    spec fn wf(&self, data: Seq<u8>) -> bool {
        &&& self.sequence is Some ==> self.sequence->0.wf()
        &&& self.frame is Some ==> self.frame->0.header.wf() && self.frame->0.offset + self.frame->0.len
            <= data.len()
    }
}

/// Parse the frame header at the start of an OBU's payload. Returns it with the
/// number of bytes it takes, counting the zero bits up to a byte boundary if
/// `align` asks for those.
fn parse_frame(obu: &Obu<'_>, sequence: &Option<SequenceHeader>, align: bool) -> (r: Outcome<(FrameHeader, usize)>)
    requires
        bit_addressable(obu.payload@.len()),
        sequence is Some ==> sequence->0.wf(),
        obu.header.temporal_id < 8,
        obu.header.spatial_id < 4,
    ensures
        ({
            let payload = obu.payload@;
            let (t, s) = (obu.header.temporal_id as int, obu.header.spatial_id as int);
            match sequence {
                None => fails_saying(r, ErrorCode::Malformed, missing_sequence()),
                Some(q) => {
                    let failure = frame_failure(payload, 0, q.model(), t, s);
                    let (m, end) = frame_at(payload, 0, q.model(), t, s);
                    if failure is Some {
                        r is Err && Some(r->Err_0.fault()) == failure
                    } else if align && bits(payload, end, align8(end) - end) != 0 {
                        fails_saying(r, ErrorCode::Malformed, pad_fault())
                    } else {
                        &&& r is Ok
                        &&& r->Ok_0.0.model() == m
                        &&& r->Ok_0.0.wf()
                        &&& align ==> r->Ok_0.1 == align8(end) / 8 && r->Ok_0.1 <= payload.len()
                    }
                },
            }
        }),
{
    match sequence {
        None => Err(PixelsError::malformed("a frame header was reached before any sequence header")),
        Some(q) => {
            let mut reader = BitReader::new(obu.payload);
            let header = FrameHeader::parse(&mut reader, q, obu.header.temporal_id, obu.header.spatial_id)?;
            if align {
                reader.byte_alignment()?;
            }
            Ok((header, reader.byte_position()))
        },
    }
}

impl Progress {
    /// Take one more OBU into account.
    fn step(self, obu: &Obu<'_>, Ghost(m): Ghost<ObuModel>, Ghost(data): Ghost<Seq<u8>>) -> (r: Outcome<Progress>)
        requires
            self.wf(data),
            bit_addressable(data.len()),
            is_obu(*obu, m, data),
            obu.header.temporal_id < 8,
            obu.header.spatial_id < 4,
        ensures
            r is Ok <==> still_step(self.model(), m, data) is Ok,
            r is Ok ==> r->Ok_0.wf(data) && Ok::<Found, Fault>(r->Ok_0.model()) == still_step(
                self.model(),
                m,
                data,
            ),
            r is Err ==> Err::<Found, Fault>(r->Err_0.fault()) == still_step(self.model(), m, data),
    {
        let kind = obu.header.kind;
        if kind == ObuType::SequenceHeader {
            let s = parse_sequence(obu.payload)?;
            Ok(Progress { sequence: Some(s), frame: self.frame })
        } else if kind == ObuType::Frame {
            let (header, used) = parse_frame(obu, &self.sequence, true)?;
            let frame = FoundFrame {
                header,
                offset: obu.payload_start + used,
                len: obu.payload.len() - used,
            };
            Ok(Progress { sequence: self.sequence, frame: Some(frame) })
        } else if kind == ObuType::FrameHeader || kind == ObuType::RedundantFrameHeader {
            let (header, _) = parse_frame(obu, &self.sequence, false)?;
            Ok(Progress { sequence: self.sequence, frame: Some(FoundFrame { header, offset: 0, len: 0 }) })
        } else if kind == ObuType::TileGroup {
            match self.frame {
                Some(f) => {
                    let frame = if f.len == 0 {
                        FoundFrame { header: f.header, offset: obu.payload_start, len: obu.payload.len() }
                    } else {
                        f
                    };
                    Ok(Progress { sequence: self.sequence, frame: Some(frame) })
                },
                None => Ok(Progress { sequence: self.sequence, frame: None }),
            }
        } else {
            Ok(self)
        }
    }
}

impl StillPicture {
    /// Parse the headers of a coded still picture. A sequence header repeated in
    /// `frame_data` overrides the configuration one.
    pub fn parse(config_obus: &[u8], frame_data: &[u8]) -> (r: Outcome<Self>)
        requires
            bit_addressable(config_obus@.len()),
            bit_addressable(frame_data@.len()),
        ensures
            r is Ok <==> still_in(config_obus@, frame_data@) is Ok,
            r is Ok ==> {
                let p = r->Ok_0;
                &&& Ok::<(SequenceModel, FrameModel, int, int), Fault>(
                    (p.sequence.model(), p.frame.model(), p.tile_data_offset as int, p.tile_data_len as int),
                ) == still_in(config_obus@, frame_data@)
                &&& p.sequence.wf()
                &&& p.frame.wf()
                &&& p.tile_data_offset + p.tile_data_len <= frame_data@.len()
            },
            r is Err ==> Err::<(SequenceModel, FrameModel, int, int), Fault>(r->Err_0.fault()) == still_in(
                config_obus@,
                frame_data@,
            ),
    {
        let sequence = match sequence_header_from_config(config_obus) {
            Ok(s) => Some(s),
            Err(_) => None,
        };
        let mut progress = Progress { sequence, frame: None };
        let obus = Obu::parse_stream(frame_data)?;
        let ghost models = obus_from(frame_data@, 0)->0;
        let ghost start = progress.model();
        let mut i: usize = 0;
        while i < obus.len()
            invariant
                i <= obus@.len(),
                bit_addressable(frame_data@.len()),
                models.len() == obus@.len(),
                obus_from(frame_data@, 0) == Some(models),
                start == (Found { sequence: config_sequence(config_obus@), frame: None }),
                forall|j: int|
                    0 <= j < obus@.len() ==> is_obu(#[trigger] obus@[j], models[j], frame_data@)
                        && obus@[j].header.temporal_id < 8 && obus@[j].header.spatial_id < 4,
                progress.wf(frame_data@),
                still_from(start, models, frame_data@, 0) == still_from(
                    progress.model(),
                    models,
                    frame_data@,
                    i as int,
                ),
            decreases obus@.len() - i,
        {
            let obu = obus[i];
            assert(is_obu(obus@[i as int], models[i as int], frame_data@));
            progress = progress.step(&obu, Ghost(models[i as int]), Ghost(frame_data@))?;
            i = i + 1;
        }
        match progress.sequence {
            None => Err(PixelsError::malformed("a frame header was reached before any sequence header")),
            Some(sequence) => match progress.frame {
                None => Err(PixelsError::malformed("the coded frame contains no frame header")),
                Some(f) => Ok(
                    StillPicture {
                        sequence,
                        frame: f.header,
                        tile_data_offset: f.offset,
                        tile_data_len: f.len,
                    },
                ),
            },
        }
    }
}

} // verus!
