//! The binary container: magic, version, length-prefixed metadata section
//! and the assignment rows that follow it.

use vstd::prelude::*;
use vstd::arithmetic::power2::{pow2, lemma2_to64, lemma2_to64_rest, lemma_pow2_strictly_increases};
use vstd::slice::slice_subrange;
use crate::ring::bytes::{be32, le16, read_be32, read_le16};
use crate::ring::limits::{check_limits, within_limits};
use crate::ring::error::FormatError;
use crate::ring::json::{json_document, parse_json, JsonValue, JsonView};
use crate::ring::metadata::{metadata_from_json, metadata_of, RingData, RingDataView};

verus! {

/// The offset at which the metadata section starts.
pub const METADATA_START: usize = 10;

/// Whether `payload` opens with the four bytes `R1NG`.
pub open spec fn has_magic(payload: Seq<u8>) -> bool {
    &&& payload.len() >= 4
    &&& payload[0] == 82
    &&& payload[1] == 49
    &&& payload[2] == 78
    &&& payload[3] == 71
}

/// Whether bytes 4 and 5 of `payload` are the big-endian number 1.
pub open spec fn has_version(payload: Seq<u8>) -> bool {
    &&& payload.len() >= 6
    &&& payload[4] == 0
    &&& payload[5] == 1
}

/// The length of the metadata section that bytes 6 to 9 declare.
pub open spec fn json_size(payload: Seq<u8>) -> int
    recommends
        payload.len() >= 10,
{
    be32(payload[6], payload[7], payload[8], payload[9])
}

/// The offset just behind the metadata section, or the first defect that
/// reading the header in order meets: each field is first read whole, then
/// compared.
pub open spec fn metadata_end(payload: Seq<u8>) -> Result<int, FormatError> {
    if payload.len() < 4 {
        Err(FormatError::Truncated)
    } else if !has_magic(payload) {
        Err(FormatError::BadMagic)
    } else if payload.len() < 6 {
        Err(FormatError::Truncated)
    } else if !has_version(payload) {
        Err(FormatError::UnsupportedVersion)
    } else if payload.len() < 10 {
        Err(FormatError::Truncated)
    } else if payload.len() < 10 + json_size(payload) {
        Err(FormatError::Truncated)
    } else {
        Ok(10 + json_size(payload))
    }
}

/// The bytes of the metadata section: exactly as many as the length prefix
/// declares.
pub open spec fn metadata_text(payload: Seq<u8>) -> Seq<u8>
    recommends
        metadata_end(payload) is Ok,
{
    payload.subrange(10, 10 + json_size(payload))
}

/// The number of partitions that a shift stands for.
pub open spec fn partition_count_of(part_shift: u8) -> nat
    recommends
        part_shift <= 32,
{
    pow2((32 - part_shift) as nat)
}

/// The little-endian 16-bit entry whose first byte lies at `at`.
pub open spec fn entry_at(payload: Seq<u8>, at: int) -> u16 {
    le16(payload[at], payload[at + 1]) as u16
}

/// `rows` consecutive rows of `columns` entries each, the first entry at
/// `start`.
pub open spec fn rows_at(payload: Seq<u8>, start: int, rows: nat, columns: nat) -> Seq<Seq<u16>> {
    Seq::new(
        rows,
        |r: int| Seq::new(columns, |c: int| entry_at(payload, start + 2 * (r * columns + c))),
    )
}

/// The assignment table of a payload whose rows start at `start`, or the
/// defect that keeps it from being read: a shift beyond 32 first, then a
/// payload that ends before the last row does.
pub open spec fn assignment_table(
    payload: Seq<u8>,
    start: int,
    part_shift: u8,
    replica_count: u8,
) -> Result<Seq<Seq<u16>>, FormatError> {
    if part_shift > 32 {
        Err(FormatError::InvalidShift)
    } else if payload.len() < start + 2 * (replica_count * partition_count_of(part_shift)) {
        Err(FormatError::Truncated)
    } else {
        Ok(rows_at(payload, start, replica_count as nat, partition_count_of(part_shift)))
    }
}

/// What a payload decodes to, given what its metadata section parses to as
/// JSON: the metadata and the assignment table, or the first defect met in
/// the order header, metadata, shift, table.
pub open spec fn decoded_with(payload: Seq<u8>, document: Option<JsonView>) -> Result<
    (RingDataView, Seq<Seq<u16>>),
    FormatError,
> {
    match metadata_end(payload) {
        Err(e) => Err(e),
        Ok(end) => match document {
            None => Err(FormatError::BadMetadata),
            Some(value) => match metadata_of(value) {
                None => Err(FormatError::BadMetadata),
                Some(meta) => match assignment_table(payload, end, meta.part_shift, meta.replica_count) {
                    Err(e) => Err(e),
                    Ok(table) => Ok((meta, table)),
                },
            },
        },
    }
}

/// The JSON document that a text holds: none where the text passes the
/// limits, and none where it is not one well-formed document. Of
/// well-formed documents the limits leave out those that nest deeper than
/// `MAX_NESTING`, those with a key of more than `MAX_KEY` bytes between its
/// quotes, and those with an exponent of more than `MAX_EXPONENT` digits.
pub open spec fn document_of(text: Seq<u8>) -> Option<JsonView> {
    if within_limits(text) {
        json_document(text)
    } else {
        None
    }
}

/// What a payload decodes to.
pub open spec fn decoded(payload: Seq<u8>) -> Result<(RingDataView, Seq<Seq<u16>>), FormatError> {
    decoded_with(payload, document_of(metadata_text(payload)))
}

/// The rows of a table, each by its entries.
pub open spec fn rows_of(table: Vec<Vec<u16>>) -> Seq<Seq<u16>> {
    Seq::new(table@.len(), |r: int| table@[r]@)
}

/// Validates magic, version and length prefix, and returns the offset just
/// behind the metadata section.
pub fn check_header(payload: &[u8]) -> (r: Result<usize, FormatError>)
    ensures
        match r {
            Ok(end) => metadata_end(payload@) == Ok::<int, FormatError>(end as int),
            Err(e) => metadata_end(payload@) == Err::<int, FormatError>(e),
        },
{
    let len: usize = payload.len();
    if len < 4 {
        return Err(FormatError::Truncated);
    }
    if !(payload[0] == 82 && payload[1] == 49 && payload[2] == 78 && payload[3] == 71) {
        return Err(FormatError::BadMagic);
    }
    if len < 6 {
        return Err(FormatError::Truncated);
    }
    if !(payload[4] == 0 && payload[5] == 1) {
        return Err(FormatError::UnsupportedVersion);
    }
    if len < 10 {
        return Err(FormatError::Truncated);
    }
    let size: u32 = read_be32(payload[6], payload[7], payload[8], payload[9]);
    if ((len - 10) as u64) < size as u64 {
        return Err(FormatError::Truncated);
    }
    Ok(10 + size as usize)
}

/// `1 << (32 - part_shift)`, which is the partition count.
pub fn partition_count_for(part_shift: u8) -> (n: u64)
    requires
        part_shift <= 32,
    ensures
        n == partition_count_of(part_shift),
        1 <= n <= 0x1_0000_0000,
{
    let bits: u64 = (32 - part_shift) as u64;
    let n: u64 = 1u64 << bits;
    proof {
        lemma2_to64();
        lemma2_to64_rest();
        vstd::bits::lemma_u64_shl_is_mul(1u64, bits);
        if bits < 32 {
            lemma_pow2_strictly_increases(bits as nat, 32);
        }
        vstd::arithmetic::power2::lemma_pow2_pos(bits as nat);
    }
    n
}

/// Reads `replica_count` rows of `2^(32 - part_shift)` little-endian
/// entries each, the first at `start`.
///
/// Fails with `InvalidShift` where the shift is larger than 32, else with
/// `Truncated` where the payload ends before the last row does, or before
/// `start`; a payload that goes on behind the table is accepted.
pub fn read_table(payload: &[u8], start: usize, part_shift: u8, replica_count: u8) -> (r: Result<
    Vec<Vec<u16>>,
    FormatError,
>)
    ensures
        match r {
            Ok(table) => assignment_table(payload@, start as int, part_shift, replica_count) == Ok::<
                Seq<Seq<u16>>,
                FormatError,
            >(rows_of(table)),
            Err(e) => assignment_table(payload@, start as int, part_shift, replica_count) == Err::<
                Seq<Seq<u16>>,
                FormatError,
            >(e),
        },
{
    if part_shift > 32 {
        return Err(FormatError::InvalidShift);
    }
    let columns: u64 = partition_count_for(part_shift);
    if start > payload.len() {
        return Err(FormatError::Truncated);
    }
    let available: u64 = (payload.len() - start) as u64;
    assert(replica_count * columns <= 255 * 0x1_0000_0000) by (nonlinear_arith)
        requires
            replica_count <= 255,
            columns <= 0x1_0000_0000,
    ;
    let needed: u64 = 2 * (replica_count as u64 * columns);
    if available < needed {
        return Err(FormatError::Truncated);
    }
    let mut table: Vec<Vec<u16>> = Vec::new();
    if replica_count == 0 {
        assert(rows_of(table) =~= rows_at(payload@, start as int, 0, columns as nat));
        return Ok(table);
    }
    assert(2 * columns <= needed) by (nonlinear_arith)
        requires
            needed == 2 * (replica_count * columns),
            replica_count >= 1,
            columns >= 0,
    ;
    let width: usize = columns as usize;
    let mut pos: usize = start;
    let mut r: u8 = 0;
    while r < replica_count
        invariant
            r <= replica_count,
            width == columns,
            part_shift <= 32,
            columns == partition_count_of(part_shift),
            start + 2 * (replica_count * columns) <= payload@.len(),
            pos == start + 2 * (r * columns),
            table@.len() == r,
            forall|i: int| 0 <= i < r ==> #[trigger] table@[i]@ == rows_at(
                payload@,
                start as int,
                replica_count as nat,
                columns as nat,
            )[i],
        decreases replica_count - r,
    {
        assert(2 * ((r + 1) * columns) <= 2 * (replica_count * columns) && (r + 1) * columns == r
            * columns + columns) by (nonlinear_arith)
            requires
                r < replica_count,
                columns >= 0,
        ;
        let mut row: Vec<u16> = Vec::new();
        let mut c: usize = 0;
        while c < width
            invariant
                c <= width,
                width == columns,
                r < replica_count,
                pos == start + 2 * (r * columns) + 2 * c,
                start + 2 * (r * columns) + 2 * columns <= payload@.len(),
                row@.len() == c,
                forall|j: int| 0 <= j < c ==> #[trigger] row@[j] == entry_at(
                    payload@,
                    start + 2 * (r * columns + j),
                ),
            decreases width - c,
        {
            let entry: u16 = read_le16(payload[pos], payload[pos + 1]);
            assert(pos == start + 2 * (r * columns + c));
            row.push(entry);
            pos = pos + 2;
            c = c + 1;
        }
        assert(row@ =~= rows_at(payload@, start as int, replica_count as nat, columns as nat)[r as int]);
        table.push(row);
        r = r + 1;
    }
    assert(rows_of(table) =~= rows_at(payload@, start as int, replica_count as nat, columns as nat));
    Ok(table)
}

/// Decodes a decompressed payload, given what its metadata section parsed
/// to: `None` where it is not a JSON document.
///
/// The document is looked at only where the header is sound.
pub fn decode_with_document(payload: &[u8], document: Option<&JsonValue>) -> (r: Result<
    (RingData, Vec<Vec<u16>>),
    FormatError,
>)
    ensures
        match r {
            Ok((meta, table)) => decoded_with(
                payload@,
                match document {
                    Some(value) => Some(value@),
                    None => None,
                },
            ) == Ok::<(RingDataView, Seq<Seq<u16>>), FormatError>((meta@, rows_of(table))),
            Err(e) => decoded_with(
                payload@,
                match document {
                    Some(value) => Some(value@),
                    None => None,
                },
            ) == Err::<(RingDataView, Seq<Seq<u16>>), FormatError>(e),
        },
{
    let end: usize = match check_header(payload) {
        Ok(end) => end,
        Err(e) => {
            return Err(e);
        },
    };
    let value = match document {
        Some(value) => value,
        None => {
            return Err(FormatError::BadMetadata);
        },
    };
    let meta = match metadata_from_json(value) {
        Some(meta) => meta,
        None => {
            return Err(FormatError::BadMetadata);
        },
    };
    match read_table(payload, end, meta.part_shift, meta.replica_count) {
        Ok(table) => Ok((meta, table)),
        Err(e) => Err(e),
    }
}

/// Parses a text as one JSON document, where it keeps within the limits.
pub fn read_document(text: &[u8]) -> (r: Option<JsonValue>)
    ensures
        match r {
            Some(value) => document_of(text@) == Some(value@),
            None => document_of(text@) is None,
        },
{
    if !check_limits(text) {
        return None;
    }
    match parse_json(text) {
        Ok(value) => Some(value),
        Err(_) => None,
    }
}

/// Decodes a decompressed payload into the metadata and the assignment
/// table.
///
/// The metadata section is cut by its length prefix and parsed as JSON; what
/// the parser makes of it is `json_document`, and all the rest is stated by
/// `decoded_with`.
///
/// A section that passes the limits of `within_limits` is not handed to the
/// parser: it is bad metadata. Among sections that are well-formed JSON
/// these are the ones with arrays and objects nested deeper than 128, with
/// an object key of more than 511 bytes between its quotes, or with a number
/// whose exponent has more than nine digits; strings that are no keys may
/// be of any length.
pub fn decode_payload(payload: &[u8]) -> (r: Result<(RingData, Vec<Vec<u16>>), FormatError>)
    ensures
        match r {
            Ok((meta, table)) => decoded(payload@) == Ok::<(RingDataView, Seq<Seq<u16>>), FormatError>(
                (meta@, rows_of(table)),
            ),
            Err(e) => decoded(payload@) == Err::<(RingDataView, Seq<Seq<u16>>), FormatError>(e),
        },
{
    let end: usize = match check_header(payload) {
        Ok(end) => end,
        Err(e) => {
            return Err(e);
        },
    };
    let document = read_document(slice_subrange(payload, METADATA_START, end));
    decode_with_document(payload, document.as_ref())
}

/// A payload of four bytes or more that does not open with the magic token
/// is refused for that, whatever else it holds.
pub proof fn lemma_bad_magic(payload: Seq<u8>, document: Option<JsonView>)
    requires
        payload.len() >= 4,
        !has_magic(payload),
    ensures
        decoded_with(payload, document) is Err,
        decoded_with(payload, document)->Err_0 == FormatError::BadMagic,
{
}

/// A payload with the magic token and a version field that is not 1 is
/// refused for its version, whatever else it holds.
pub proof fn lemma_unsupported_version(payload: Seq<u8>, document: Option<JsonView>)
    requires
        has_magic(payload),
        payload.len() >= 6,
        !has_version(payload),
    ensures
        decoded_with(payload, document) is Err,
        decoded_with(payload, document)->Err_0 == FormatError::UnsupportedVersion,
{
}

/// A payload whose header and metadata are sound and whose shift is larger
/// than 32 is refused for its shift: no partition count is computed.
pub proof fn lemma_invalid_shift(payload: Seq<u8>, value: JsonView)
    requires
        metadata_end(payload) is Ok,
        metadata_of(value) is Some,
        metadata_of(value)->0.part_shift > 32,
    ensures
        decoded_with(payload, Some(value)) is Err,
        decoded_with(payload, Some(value))->Err_0 == FormatError::InvalidShift,
{
}

/// A payload that ends before its last assignment row does is refused as
/// truncated: no shorter table comes out.
pub proof fn lemma_truncated_table(payload: Seq<u8>, value: JsonView)
    requires
        metadata_end(payload) is Ok,
        metadata_of(value) is Some,
        metadata_of(value)->0.part_shift <= 32,
        payload.len() < metadata_end(payload)->Ok_0 + 2 * (metadata_of(value)->0.replica_count
            * partition_count_of(metadata_of(value)->0.part_shift)),
    ensures
        decoded_with(payload, Some(value)) is Err,
        decoded_with(payload, Some(value))->Err_0 == FormatError::Truncated,
{
}

/// A payload that decodes has a row for each replica that the metadata
/// counts, and every row has `2^(32 - part_shift)` entries.
pub proof fn lemma_decoded_shape(payload: Seq<u8>, document: Option<JsonView>)
    requires
        decoded_with(payload, document) is Ok,
    ensures
        ({
            let (meta, table) = decoded_with(payload, document)->Ok_0;
            &&& meta.part_shift <= 32
            &&& table.len() == meta.replica_count
            &&& forall|r: int|
                0 <= r < table.len() ==> (#[trigger] table[r]).len() == partition_count_of(meta.part_shift)
        }),
{
}

} // verus!
