//! Transform types of transform blocks.
//!
//! A luma block's type is read as a symbol whose alphabet, the transform set,
//! depends on the transform size, and mapped through the set's table; chroma
//! takes its type from the prediction mode. Large transforms and the lossless
//! path always use the DCT in both directions.
use super::cdf::{rows_hold, rows_ok, turn, CdfTable};
use super::symbol::SymbolDecoder;
use super::transform::{TxSize, TxType, TX_SIZE_SQR, TX_SIZE_SQR_UP};
use crate::error::{ErrorCode, Outcome, PixelsError, fails_saying};
use vstd::prelude::*;

verus! {

/// The transform sets of an intra frame.
#[derive(Clone, Copy, PartialEq, Eq, Structural, Debug)]
pub enum IntraTxSet {
    /// Only the DCT in both directions; no symbol is coded.
    DctOnly,
    /// Seven types.
    Set1,
    /// Five types.
    Set2,
}

/// The types of the larger set, by symbol.
pub const TX_TYPE_INTRA_INV_SET1: [TxType; 7] = [
    TxType::Idtx,
    TxType::DctDct,
    TxType::VDct,
    TxType::HDct,
    TxType::AdstAdst,
    TxType::AdstDct,
    TxType::DctAdst,
];

/// The types of the smaller set, by symbol.
pub const TX_TYPE_INTRA_INV_SET2: [TxType; 5] = [
    TxType::Idtx,
    TxType::DctDct,
    TxType::AdstAdst,
    TxType::AdstDct,
    TxType::DctAdst,
];

/// The type that each chroma prediction mode implies.
pub const MODE_TO_TXFM: [TxType; 14] = [
    TxType::DctDct,
    TxType::AdstDct,
    TxType::DctAdst,
    TxType::DctDct,
    TxType::AdstAdst,
    TxType::AdstDct,
    TxType::DctAdst,
    TxType::DctAdst,
    TxType::AdstDct,
    TxType::AdstAdst,
    TxType::AdstDct,
    TxType::DctAdst,
    TxType::AdstAdst,
    TxType::DctDct,
];

/// The prediction direction that each filter-intra mode stands for.
pub const FILTER_INTRA_MODE_TO_INTRA_DIR: [usize; 5] = [0, 1, 2, 6, 0];

/// The transform set of a size.
pub open spec fn tx_set(size: TxSize, reduced: bool) -> IntraTxSet {
    if TX_SIZE_SQR_UP@[size.code()] >= 3 {
        IntraTxSet::DctOnly
    } else if reduced || TX_SIZE_SQR@[size.code()] == 2 {
        IntraTxSet::Set2
    } else {
        IntraTxSet::Set1
    }
}

/// The transform set of a size: a side of 32 or more allows the DCT only; the
/// reduced flag, or a shorter side of 16, the smaller set.
pub fn intra_tx_set(tx_size: TxSize, reduced_tx_set: bool) -> (r: IntraTxSet)
    ensures
        r == tx_set(tx_size, reduced_tx_set),
{
    if tx_size.sqr_up_idx() >= 3 {
        IntraTxSet::DctOnly
    } else if reduced_tx_set || tx_size.sqr_idx() == 2 {
        IntraTxSet::Set2
    } else {
        IntraTxSet::Set1
    }
}

/// The direction that selects a type's distribution.
pub open spec fn direction(y_mode: int, filter_intra: Option<usize>) -> int {
    match filter_intra {
        Some(mode) => if mode < 5 {
            FILTER_INTRA_MODE_TO_INTRA_DIR@[mode as int] as int
        } else {
            0
        },
        None => y_mode,
    }
}

/// The direction that selects a type's distribution: the luma mode, or what the
/// filter-intra mode stands for.
pub fn intra_dir(y_mode: usize, filter_intra: Option<usize>) -> (r: usize)
    ensures
        r == direction(y_mode as int, filter_intra),
{
    match filter_intra {
        Some(mode) => if mode < 5 {
            FILTER_INTRA_MODE_TO_INTRA_DIR[mode]
        } else {
            0
        },
        None => y_mode,
    }
}

/// The rows of a type table: thirteen directions for each of two sizes in the
/// larger set, then for each of three sizes in the smaller.
pub open spec fn type_rows(rows: Seq<Seq<u16>>) -> bool {
    &&& rows_ok(rows)
    &&& rows.len() == 65
    &&& rows_hold(rows, 0, 26, 7)
    &&& rows_hold(rows, 26, 39, 5)
}

/// The type distributions of one tile.
pub struct IntraTxTypeCdfs {
    /// The distributions.
    pub table: CdfTable,
}

impl IntraTxTypeCdfs {
    /// The rows are those of a type table.
    pub open spec fn wf(&self) -> bool {
        type_rows(self.table@)
    }

    /// The distributions a tile starts from.
    pub fn new(defaults: &CdfTable) -> (r: IntraTxTypeCdfs)
        requires
            type_rows(defaults@),
        ensures
            r.wf(),
            r.table@ == defaults@,
    {
        IntraTxTypeCdfs { table: defaults.duplicate() }
    }
}

/// The row of a type symbol, where there is one.
pub open spec fn type_row(set: IntraTxSet, size: TxSize, dir: int) -> Option<int> {
    let sqr = TX_SIZE_SQR@[size.code()] as int;
    if dir >= 13 {
        None
    } else if set == IntraTxSet::Set1 && sqr < 2 {
        Some(13 * sqr + dir)
    } else if set == IntraTxSet::Set2 && sqr < 3 {
        Some(26 + 13 * sqr + dir)
    } else {
        None
    }
}

/// The type that a symbol stands for in a set.
pub open spec fn type_of(set: IntraTxSet, symbol: int) -> TxType {
    if set == IntraTxSet::Set1 {
        TX_TYPE_INTRA_INV_SET1@[symbol]
    } else {
        TX_TYPE_INTRA_INV_SET2@[symbol]
    }
}

/// Read a luma block's transform type. Nothing is read, and the type is the DCT
/// in both directions, where the set has only that or the quantiser index is
/// zero. A direction or a size without a distribution is malformed.
pub fn read_transform_type(
    dec: &mut SymbolDecoder<'_>,
    cdfs: &mut IntraTxTypeCdfs,
    set: IntraTxSet,
    tx_size: TxSize,
    intra_dir: usize,
    qindex_positive: bool,
) -> (r: Outcome<TxType>)
    requires
        old(dec).wf(),
        old(cdfs).wf(),
    ensures
        ({
            let read = set != IntraTxSet::DctOnly && qindex_positive;
            let row = type_row(set, tx_size, intra_dir as int);
            let t = turn(old(dec).sym(), old(cdfs).table@, old(dec).frozen(), row->0);
            &&& r is Ok <==> !read || row is Some
            &&& !read ==> r->Ok_0 == TxType::DctDct
            &&& r is Ok && read ==> r->Ok_0 == type_of(set, t.0) && final(dec).sym() == t.1 && final(cdfs).table@ == t.2
            &&& !(r is Ok && read) ==> final(dec).sym() == old(dec).sym() && final(cdfs).table@ == old(cdfs).table@
        }),
        r is Err ==> fails_saying(r, ErrorCode::Malformed, "an AV1 tx-type CDF index ran out of range"@),
        final(dec).wf(),
        final(dec).frozen() == old(dec).frozen(),
        final(cdfs).wf(),
{
    if set == IntraTxSet::DctOnly || !qindex_positive {
        return Ok(TxType::DctDct);
    }
    let sqr = tx_size.sqr_idx() as usize;
    if intra_dir >= 13 {
        return Err(PixelsError::malformed("an AV1 tx-type CDF index ran out of range"));
    }
    if set == IntraTxSet::Set1 {
        if sqr >= 2 {
            return Err(PixelsError::malformed("an AV1 tx-type CDF index ran out of range"));
        }
        let symbol = cdfs.table.read(dec, 13 * sqr + intra_dir)?;
        Ok(TX_TYPE_INTRA_INV_SET1[symbol])
    } else {
        if sqr >= 3 {
            return Err(PixelsError::malformed("an AV1 tx-type CDF index ran out of range"));
        }
        let symbol = cdfs.table.read(dec, 26 + 13 * sqr + intra_dir)?;
        Ok(TX_TYPE_INTRA_INV_SET2[symbol])
    }
}

/// The type that a chroma prediction mode implies.
pub open spec fn implied_type(uv_mode: int) -> TxType {
    if uv_mode < 14 {
        MODE_TO_TXFM@[uv_mode]
    } else {
        TxType::DctDct
    }
}

/// Whether a type belongs to a set.
pub open spec fn in_set(set: IntraTxSet, ty: TxType) -> bool {
    match set {
        IntraTxSet::DctOnly => ty == TxType::DctDct,
        IntraTxSet::Set1 => exists|i: int| 0 <= i < 7 && #[trigger] TX_TYPE_INTRA_INV_SET1@[i] == ty,
        IntraTxSet::Set2 => exists|i: int| 0 <= i < 5 && #[trigger] TX_TYPE_INTRA_INV_SET2@[i] == ty,
    }
}

/// The type that a chroma prediction mode implies; the DCT past the last mode.
pub fn mode_to_txfm(uv_mode: usize) -> (r: TxType)
    ensures
        r == implied_type(uv_mode as int),
{
    if uv_mode < 14 {
        MODE_TO_TXFM[uv_mode]
    } else {
        TxType::DctDct
    }
}

/// Whether a type belongs to a set.
pub fn is_tx_type_in_set_intra(set: IntraTxSet, tx_type: TxType) -> (r: bool)
    ensures
        r == in_set(set, tx_type),
{
    match set {
        IntraTxSet::DctOnly => tx_type == TxType::DctDct,
        IntraTxSet::Set1 => {
            let mut i: usize = 0;
            while i < 7
                invariant
                    i <= 7,
                    forall|k: int| 0 <= k < i ==> #[trigger] TX_TYPE_INTRA_INV_SET1@[k] != tx_type,
                    set == IntraTxSet::Set1,
                decreases 7 - i,
            {
                if TX_TYPE_INTRA_INV_SET1[i] == tx_type {
                    assert(TX_TYPE_INTRA_INV_SET1@[i as int] == tx_type);
                    return true;
                }
                i = i + 1;
            }
            false
        },
        IntraTxSet::Set2 => {
            let mut i: usize = 0;
            while i < 5
                invariant
                    i <= 5,
                    forall|k: int| 0 <= k < i ==> #[trigger] TX_TYPE_INTRA_INV_SET2@[k] != tx_type,
                    set == IntraTxSet::Set2,
                decreases 5 - i,
            {
                if TX_TYPE_INTRA_INV_SET2[i] == tx_type {
                    assert(TX_TYPE_INTRA_INV_SET2@[i as int] == tx_type);
                    return true;
                }
                i = i + 1;
            }
            false
        },
    }
}

/// The chroma transform type: what the mode implies if the set has it, or else
/// the DCT in both directions.
pub open spec fn chroma_type(uv_mode: int, set: IntraTxSet) -> TxType {
    if in_set(set, implied_type(uv_mode)) {
        implied_type(uv_mode)
    } else {
        TxType::DctDct
    }
}

/// The chroma transform type.
pub fn chroma_tx_type(uv_mode: usize, set: IntraTxSet) -> (r: TxType)
    ensures
        r == chroma_type(uv_mode as int, set),
        in_set(set, r),
{
    let tx_type = mode_to_txfm(uv_mode);
    assert(TX_TYPE_INTRA_INV_SET1@[1] == TxType::DctDct);
    assert(TX_TYPE_INTRA_INV_SET2@[1] == TxType::DctDct);
    if is_tx_type_in_set_intra(set, tx_type) {
        tx_type
    } else {
        TxType::DctDct
    }
}

} // verus!
