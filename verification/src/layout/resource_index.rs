//! Resource-index layout discovery.
//!
//! Modern Nesstar containers use a trailing record index. The index is the
//! source of truth for payload spans; DDI dimensions are used only to match a
//! descriptor to its logical block and to classify a column for decoding.

use std::collections::BTreeMap;
use vstd::prelude::*;
use crate::model::{BlockDefinition, VariableDefinition, same_variable};
use crate::order::{is_stable_order, stable_order};
use crate::bytes::{le_value, read_le, lemma_le_value_bound, lemma_pow256_values, pow256};
use crate::text::{string_views, decode_utf16_field, nat_text, push_chars, push_str, string_from_chars, u64_text, utf16_field};

verus! {

broadcast use {vstd::laws_cmp::group_laws_cmp, vstd::std_specs::btree::group_btree_axioms};

/// Where the header holds the 48-bit offset of the record index.
pub const RESOURCE_INDEX_OFFSET_FIELD: usize = 0x25;
/// Where the header holds the number of datasets.
pub const DATASET_COUNT_FIELD: usize = 0x2b;
/// Where the header holds the size of one dataset descriptor.
pub const DESCRIPTOR_RECORD_SIZE_FIELD: usize = 0x2d;
/// Where the header holds the record id of the descriptor table.
pub const DESCRIPTOR_TABLE_RECORD_ID_FIELD: usize = 0x2f;
/// The bytes of one record of the index.
pub const RESOURCE_INDEX_RECORD_SIZE: usize = 15;
/// The smallest size of a variable directory entry.
pub const MIN_DIRECTORY_ENTRY_SIZE: usize = 160;
/// The smallest size of a dataset descriptor.
pub const MIN_DESCRIPTOR_SIZE: usize = 26;

/// Why a resource-index layout could not be read.
#[derive(Debug, PartialEq, Eq)]
pub enum ResourceLayoutError {
    OffsetOverflow { context: &'static str },
    OutOfBounds { context: &'static str, start: usize, end: usize, length: usize },
    EmptyIndex,
    MissingRecord { record_id: u32 },
    InvalidDescriptor(String),
    InvalidDirectoryEntry { name: String, reason: String },
    NotFound { block_id: String },
    NoDdiOverlap { block_id: String },
}

/// One entry of the trailing record index: a payload span.
#[derive(Clone, Copy, Debug, PartialEq, Eq, Structural)]
pub struct ResourceRecord {
    pub record_id: u32,
    pub offset: usize,
    pub length: usize,
}

/// The error, if any, of taking `length` bytes at `start` from `data_len` bytes.
pub open spec fn range_error(data_len: nat, start: int, length: int, context: &'static str) -> Option<
    ResourceLayoutError,
> {
    if start + length > usize::MAX {
        Some(ResourceLayoutError::OffsetOverflow { context })
    } else if start + length > data_len {
        Some(
            ResourceLayoutError::OutOfBounds {
                context,
                start: start as usize,
                end: (start + length) as usize,
                length: data_len as usize,
            },
        )
    } else {
        None
    }
}

/// The little-endian value of `width` bytes of `data` at `at`.
pub open spec fn le_at(data: Seq<u8>, at: int, width: int) -> nat {
    le_value(data.subrange(at, at + width))
}

/// Check that `length` bytes at `start` lie inside `data`.
pub fn checked_range(data: &[u8], start: usize, length: usize, context: &'static str) -> (r: Result<
    (),
    ResourceLayoutError,
>)
    ensures
        match range_error(data@.len(), start as int, length as int, context) {
            Some(e) => r == Err::<(), ResourceLayoutError>(e),
            None => r is Ok,
        },
{
    if start > usize::MAX - length {
        return Err(ResourceLayoutError::OffsetOverflow { context });
    }
    let end = start + length;
    if end > data.len() {
        return Err(ResourceLayoutError::OutOfBounds { context, start, end, length: data.len() });
    }
    Ok(())
}

/// Read a little-endian unsigned integer of `width` bytes at `offset`.
pub fn read_unsigned(data: &[u8], offset: usize, width: usize, context: &'static str) -> (r: Result<
    u64,
    ResourceLayoutError,
>)
    requires
        width <= 8,
    ensures
        match range_error(data@.len(), offset as int, width as int, context) {
            Some(e) => r == Err::<u64, ResourceLayoutError>(e),
            None => r matches Ok(v) && v as nat == le_at(data@, offset as int, width as int),
        },
{
    checked_range(data, offset, width, context)?;
    Ok(read_le(data, offset, width))
}

/// Read a little-endian `u16` at `offset`.
pub fn u16_le(data: &[u8], offset: usize, context: &'static str) -> (r: Result<
    u16,
    ResourceLayoutError,
>)
    ensures
        match range_error(data@.len(), offset as int, 2, context) {
            Some(e) => r == Err::<u16, ResourceLayoutError>(e),
            None => r matches Ok(v) && v as nat == le_at(data@, offset as int, 2),
        },
{
    let v = read_unsigned(data, offset, 2, context)?;
    proof {
        lemma_le_value_bound(data@.subrange(offset as int, offset + 2));
        lemma_pow256_values();
    }
    Ok(v as u16)
}

/// Read a little-endian `u32` at `offset`.
pub fn u32_le(data: &[u8], offset: usize, context: &'static str) -> (r: Result<
    u32,
    ResourceLayoutError,
>)
    ensures
        match range_error(data@.len(), offset as int, 4, context) {
            Some(e) => r == Err::<u32, ResourceLayoutError>(e),
            None => r matches Ok(v) && v as nat == le_at(data@, offset as int, 4),
        },
{
    let v = read_unsigned(data, offset, 4, context)?;
    proof {
        lemma_le_value_bound(data@.subrange(offset as int, offset + 4));
        lemma_pow256_values();
    }
    Ok(v as u32)
}

/// Read a 48-bit little-endian value at `offset`.
pub fn u48_le(data: &[u8], offset: usize, context: &'static str) -> (r: Result<
    u64,
    ResourceLayoutError,
>)
    ensures
        match range_error(data@.len(), offset as int, 6, context) {
            Some(e) => r == Err::<u64, ResourceLayoutError>(e),
            None => r matches Ok(v) && v as nat == le_at(data@, offset as int, 6),
        },
{
    read_unsigned(data, offset, 6, context)
}

/// The index entry stored at `at`: record id, payload offset and length.
pub open spec fn index_entry(data: Seq<u8>, at: int) -> (u32, nat, nat) {
    (le_at(data, at, 4) as u32, le_at(data, at + 4, 6), le_at(data, at + 10, 4))
}

/// The records of the first `n` index entries that start at `base`, later
/// entries replacing earlier ones with the same id; the first entry whose
/// payload span does not fit is an error.
pub open spec fn index_records(data: Seq<u8>, base: int, n: nat) -> Result<
    Map<u32, ResourceRecord>,
    ResourceLayoutError,
>
    decreases n,
{
    if n == 0 {
        Ok(Map::empty())
    } else {
        match index_records(data, base, (n - 1) as nat) {
            Err(e) => Err(e),
            Ok(m) => {
                let (id, offset, length) = index_entry(
                    data,
                    base + (n - 1) * RESOURCE_INDEX_RECORD_SIZE,
                );
                if offset > usize::MAX {
                    Err(ResourceLayoutError::OffsetOverflow { context: "record payload offset" })
                } else {
                    match range_error(data.len(), offset as int, length as int, "record payload") {
                        Some(e) => Err(e),
                        None => Ok(
                            m.insert(
                                id,
                                ResourceRecord {
                                    record_id: id,
                                    offset: offset as usize,
                                    length: length as usize,
                                },
                            ),
                        ),
                    }
                }
            },
        }
    }
}

/// Once a prefix of the index fails, every longer prefix fails the same way.
proof fn lemma_index_records_error_persists(data: Seq<u8>, base: int, i: nat, n: nat)
    requires
        i <= n,
        index_records(data, base, i) is Err,
    ensures
        index_records(data, base, n) == index_records(data, base, i),
    decreases n,
{
    if i < n {
        lemma_index_records_error_persists(data, base, i, (n - 1) as nat);
    }
}

/// What reading the trailing record index of `data` gives.
pub open spec fn resource_index_spec(data: Seq<u8>) -> Result<
    Map<u32, ResourceRecord>,
    ResourceLayoutError,
> {
    match range_error(data.len(), RESOURCE_INDEX_OFFSET_FIELD as int, 6, "offset field") {
        Some(e) => Err(e),
        None => {
            let index_offset = le_at(data, RESOURCE_INDEX_OFFSET_FIELD as int, 6);
            if index_offset > usize::MAX {
                Err(ResourceLayoutError::OffsetOverflow { context: "index offset" })
            } else if index_offset == 0 {
                Err(ResourceLayoutError::EmptyIndex)
            } else {
                match range_error(data.len(), index_offset as int, 4, "record count") {
                    Some(e) => Err(e),
                    None => {
                        let count = le_at(data, index_offset as int, 4);
                        if count == 0 {
                            Err(ResourceLayoutError::EmptyIndex)
                        } else if count * RESOURCE_INDEX_RECORD_SIZE > usize::MAX {
                            Err(ResourceLayoutError::OffsetOverflow { context: "records length" })
                        } else {
                            match range_error(
                                data.len(),
                                index_offset + 4 as int,
                                count * RESOURCE_INDEX_RECORD_SIZE as int,
                                "records",
                            ) {
                                Some(e) => Err(e),
                                None => index_records(data, index_offset + 4 as int, count),
                            }
                        }
                    },
                }
            }
        },
    }
}

/// Read the trailing record-id index with checked offsets and lengths.
pub fn parse_resource_index(data: &[u8]) -> (r: Result<
    BTreeMap<u32, ResourceRecord>,
    ResourceLayoutError,
>)
    ensures
        match resource_index_spec(data@) {
            Ok(m) => r matches Ok(records) && records@ == m,
            Err(e) => r == Err::<BTreeMap<u32, ResourceRecord>, ResourceLayoutError>(e),
        },
{
    let index_offset_raw = u48_le(data, RESOURCE_INDEX_OFFSET_FIELD, "offset field")?;
    if index_offset_raw > usize::MAX as u64 {
        return Err(ResourceLayoutError::OffsetOverflow { context: "index offset" });
    }
    let index_offset = index_offset_raw as usize;
    if index_offset == 0 {
        return Err(ResourceLayoutError::EmptyIndex);
    }
    let record_count = u32_le(data, index_offset, "record count")? as usize;
    if record_count == 0 {
        return Err(ResourceLayoutError::EmptyIndex);
    }
    let records_offset = index_offset + 4;
    if record_count > usize::MAX / RESOURCE_INDEX_RECORD_SIZE {
        assert(record_count * RESOURCE_INDEX_RECORD_SIZE > usize::MAX) by (nonlinear_arith)
            requires
                record_count > usize::MAX / 15,
        ;
        return Err(ResourceLayoutError::OffsetOverflow { context: "records length" });
    }
    let records_length = record_count * RESOURCE_INDEX_RECORD_SIZE;
    checked_range(data, records_offset, records_length, "records")?;

    let mut records: BTreeMap<u32, ResourceRecord> = BTreeMap::new();
    let mut index: usize = 0;
    let data_len = data.len();
    while index < record_count
        invariant
            index <= record_count,
            data_len == data@.len(),
            resource_index_spec(data@) == index_records(
                data@,
                records_offset as int,
                record_count as nat,
            ),
            records_offset + record_count * RESOURCE_INDEX_RECORD_SIZE <= data@.len(),
            index_records(data@, records_offset as int, index as nat) == Ok::<
                Map<u32, ResourceRecord>,
                ResourceLayoutError,
            >(records@),
        decreases record_count - index,
    {
        assert(index * 15 + 15 <= record_count * 15) by (nonlinear_arith)
            requires
                index < record_count,
        ;
        let offset = records_offset + index * RESOURCE_INDEX_RECORD_SIZE;
        let record_id = read_le(data, offset, 4);
        let payload_offset_raw = read_le(data, offset + 4, 6);
        let length_raw = read_le(data, offset + 10, 4);
        proof {
            lemma_le_value_bound(data@.subrange(offset as int, offset + 4));
            lemma_le_value_bound(data@.subrange(offset + 10, offset + 14));
            lemma_pow256_values();
        }
        if payload_offset_raw > usize::MAX as u64 {
            proof {
                lemma_index_records_error_persists(
                    data@,
                    records_offset as int,
                    (index + 1) as nat,
                    record_count as nat,
                );
            }
            return Err(ResourceLayoutError::OffsetOverflow { context: "record payload offset" });
        }
        let payload_offset = payload_offset_raw as usize;
        let length = length_raw as usize;
        let checked = checked_range(data, payload_offset, length, "record payload");
        if let Err(e) = checked {
            proof {
                lemma_index_records_error_persists(
                    data@,
                    records_offset as int,
                    (index + 1) as nat,
                    record_count as nat,
                );
            }
            return Err(e);
        }
        let record_id = record_id as u32;
        records.insert(record_id, ResourceRecord { record_id, offset: payload_offset, length });
        index += 1;
    }
    Ok(records)
}

/// One entry of a descriptor's variable directory.
#[derive(Debug, PartialEq, Eq)]
pub struct ResourceVariable {
    pub entry_index: u32,
    pub name: String,
    pub payload_record_id: u32,
    pub payload_offset: usize,
    pub payload_length: usize,
    pub effective_payload_length: usize,
    /// True only when two adjacent payload halves are byte-for-byte equal.
    pub duplicate_payload: bool,
    pub width_value: usize,
    pub label_resource_id: u32,
    pub category_resource_id: u16,
    pub object_id: u32,
    pub mode_code: u8,
    pub value_format_code: u8,
    pub value_offset_i64: i64,
}

impl Clone for ResourceVariable {
    fn clone(&self) -> (res: Self)
        ensures
            res == *self,
    {
        ResourceVariable {
            entry_index: self.entry_index,
            name: self.name.clone(),
            payload_record_id: self.payload_record_id,
            payload_offset: self.payload_offset,
            payload_length: self.payload_length,
            effective_payload_length: self.effective_payload_length,
            duplicate_payload: self.duplicate_payload,
            width_value: self.width_value,
            label_resource_id: self.label_resource_id,
            category_resource_id: self.category_resource_id,
            object_id: self.object_id,
            mode_code: self.mode_code,
            value_format_code: self.value_format_code,
            value_offset_i64: self.value_offset_i64,
        }
    }
}

/// The byte size of `rows` values in a compact numeric format, if the
/// format is compact and the size fits in `usize`.
pub open spec fn compact_payload_size_spec(format: u8, rows: int) -> Option<int> {
    let size = if format == 2 {
        Some((rows + 1) / 2)
    } else if format == 3 {
        Some(rows)
    } else if 4 <= format <= 7 {
        Some(rows * (format - 2))
    } else if format == 10 {
        Some(rows * 8)
    } else {
        None
    };
    if rows > usize::MAX {
        None
    } else {
        match size {
            Some(n) => if n <= usize::MAX {
                Some(n)
            } else {
                None
            },
            None => None,
        }
    }
}

/// The payload size of a compact numeric column of `rows` rows.
pub fn compact_payload_size(format: u8, rows: u64) -> (r: Option<usize>)
    ensures
        r matches Some(n) ==> compact_payload_size_spec(format, rows as int) == Some(n as int),
        r is None ==> compact_payload_size_spec(format, rows as int) is None,
{
    if rows > usize::MAX as u64 {
        return None;
    }
    let rows = rows as usize;
    if format == 2 {
        Some(rows / 2 + rows % 2)
    } else if format == 3 {
        Some(rows)
    } else if 4 <= format && format <= 7 {
        let per = (format - 2) as usize;
        if rows > usize::MAX / per {
            assert(rows * per > usize::MAX) by (nonlinear_arith)
                requires
                    rows > usize::MAX / per,
                    per > 0,
            ;
            None
        } else {
            assert(rows * per <= usize::MAX) by (nonlinear_arith)
                requires
                    rows <= usize::MAX / per,
                    per > 0,
            ;
            Some(rows * per)
        }
    } else if format == 10 {
        if rows > usize::MAX / 8 {
            None
        } else {
            Some(rows * 8)
        }
    } else {
        None
    }
}

/// Whether a payload holds its expected column bytes twice in a row: the
/// expected size is the compact size for mode 5, otherwise `width * rows`.
pub open spec fn duplicate_payload_spec(
    data: Seq<u8>,
    payload: ResourceRecord,
    compact_size: Option<usize>,
    mode: u8,
    width: usize,
    rows: u64,
) -> bool {
    let expected_text: Option<int> = if rows <= usize::MAX && width * rows <= usize::MAX {
        Some(width * rows)
    } else {
        None
    };
    let expected: Option<int> = if mode == 5 && compact_size is Some {
        Some(compact_size.unwrap() as int)
    } else {
        expected_text
    };
    match expected {
        None => false,
        Some(e) => {
            let doubled = if 2 * e > usize::MAX {
                usize::MAX as int
            } else {
                2 * e
            };
            &&& payload.length == doubled
            &&& payload.offset + payload.length <= data.len()
            &&& data.subrange(payload.offset as int, payload.offset + e) == data.subrange(
                payload.offset + e,
                payload.offset + payload.length,
            )
        },
    }
}

/// Whether two adjacent halves of the payload are equal copies of the
/// expected column bytes.
pub fn is_duplicate_payload(
    data: &[u8],
    payload: &ResourceRecord,
    compact_size: Option<usize>,
    mode: u8,
    width: usize,
    rows: u64,
) -> (r: bool)
    ensures
        r == duplicate_payload_spec(data@, *payload, compact_size, mode, width, rows),
{
    let expected_text: Option<usize> = if rows <= usize::MAX as u64 {
        let rows = rows as usize;
        if width == 0 || rows <= usize::MAX / width {
            proof {
                if width > 0 {
                    assert(width * rows <= usize::MAX) by (nonlinear_arith)
                        requires
                            rows <= usize::MAX / width,
                            width > 0,
                    ;
                }
            }
            Some(width * rows)
        } else {
            assert(width * rows > usize::MAX) by (nonlinear_arith)
                requires
                    rows > usize::MAX / width,
                    width > 0,
            ;
            None
        }
    } else {
        None
    };
    let expected = if mode == 5 && compact_size.is_some() {
        compact_size
    } else {
        expected_text
    };
    let expected = match expected {
        Some(e) => e,
        None => return false,
    };
    let doubled = if expected > usize::MAX / 2 {
        assert(2 * expected > usize::MAX);
        usize::MAX
    } else {
        assert(2 * expected <= usize::MAX);
        2 * expected
    };
    if payload.length != doubled {
        return false;
    }
    let data_len = data.len();
    if checked_range(data, payload.offset, payload.length, "duplicate payload").is_err() {
        return false;
    }
    let mut i: usize = 0;
    let first = payload.offset;
    let second = payload.offset + expected;
    let second_len = payload.length - expected;
    if second_len != expected {
        proof {
            assert(data@.subrange(first as int, first + expected).len() != data@.subrange(
                second as int,
                payload.offset + payload.length,
            ).len());
        }
        return false;
    }
    assert(payload.offset + payload.length == second + expected);
    while i < expected
        invariant
            i <= expected,
            payload.offset + payload.length == second + expected,
            first == payload.offset,
            second == first + expected,
            first + 2 * expected <= data@.len(),
            forall|k: int| 0 <= k < i ==> #[trigger] data@[first + k] == data@[second + k],
        decreases expected - i,
    {
        if data[first + i] != data[second + i] {
            proof {
                assert(data@.subrange(first as int, first + expected)[i as int] != data@.subrange(
                    second as int,
                    second + expected,
                )[i as int]);
            }
            return false;
        }
        i += 1;
    }
    proof {
        assert forall|k: int| 0 <= k < expected implies #[trigger] data@.subrange(
            first as int,
            first + expected,
        )[k] == data@.subrange(second as int, second + expected)[k] by {
            assert(data@[first + k] == data@[second + k]);
        }
        assert(data@.subrange(first as int, first + expected) =~= data@.subrange(
            second as int,
            second + expected,
        ));
    }
    true
}

/// Two's-complement reading of a 64-bit unsigned value.
pub open spec fn as_signed64(v: nat) -> int {
    if v < 0x8000_0000_0000_0000 {
        v as int
    } else {
        v - 0x1_0000_0000_0000_0000
    }
}

/// The name of a directory entry: the NUL-terminated UTF-16LE text in bytes
/// 63..127, or empty when it is not valid UTF-16.
pub open spec fn entry_name(entry: Seq<u8>) -> Seq<char> {
    match utf16_field(entry, 63, 32) {
        Some(s) => s,
        None => Seq::empty(),
    }
}

/// `v` holds what directory entry `entry` declares, its payload being `payload`
/// in a block of `rows` rows.
pub open spec fn entry_variable(
    v: ResourceVariable,
    data: Seq<u8>,
    entry: Seq<u8>,
    payload: ResourceRecord,
    rows: u64,
) -> bool {
    let format = entry[5];
    let mode = entry[159];
    let width = entry[149] as usize;
    let duplicate = duplicate_payload_spec(
        data,
        payload,
        match compact_payload_size_spec(format, rows as int) {
            Some(n) => Some(n as usize),
            None => None,
        },
        mode,
        width,
        rows,
    );
    &&& v.entry_index as nat == le_at(entry, 0, 4)
    &&& v.name@ == entry_name(entry)
    &&& v.payload_record_id as nat == le_at(entry, 15, 4)
    &&& v.payload_offset == payload.offset
    &&& v.payload_length == payload.length
    &&& v.duplicate_payload == duplicate
    &&& v.effective_payload_length == if duplicate {
        payload.length / 2
    } else {
        payload.length
    }
    &&& v.width_value == width
    &&& v.label_resource_id as nat == le_at(entry, 127, 4)
    &&& v.category_resource_id as nat == le_at(entry, 131, 2)
    &&& v.object_id as nat == le_at(entry, 155, 4)
    &&& v.mode_code == mode
    &&& v.value_format_code == format
    &&& v.value_offset_i64 as int == as_signed64(le_at(entry, 6, 8))
}

/// The offsets of the named entries among the first `n` entries of a
/// directory at `directory_offset`, or the first error met reading them.
pub open spec fn directory_entries(
    data: Seq<u8>,
    records: Map<u32, ResourceRecord>,
    directory_offset: int,
    entry_size: int,
    n: nat,
) -> Result<Seq<int>, ResourceLayoutError>
    decreases n,
{
    if n == 0 {
        Ok(Seq::empty())
    } else {
        match directory_entries(data, records, directory_offset, entry_size, (n - 1) as nat) {
            Err(e) => Err(e),
            Ok(kept) => {
                let offset = directory_offset + (n - 1) * entry_size;
                if offset > usize::MAX {
                    Err(ResourceLayoutError::OffsetOverflow { context: "directory entry offset" })
                } else {
                    match range_error(data.len(), offset, entry_size, "directory entry") {
                        Some(e) => Err(e),
                        None => {
                            let entry = data.subrange(offset, offset + entry_size);
                            if entry_name(entry).len() == 0 {
                                Ok(kept)
                            } else {
                                let id = le_at(entry, 15, 4) as u32;
                                if !records.contains_key(id) {
                                    Err(ResourceLayoutError::MissingRecord { record_id: id })
                                } else {
                                    match range_error(
                                        data.len(),
                                        records[id].offset as int,
                                        records[id].length as int,
                                        "column payload",
                                    ) {
                                        Some(e) => Err(e),
                                        None => Ok(kept.push(offset)),
                                    }
                                }
                            }
                        },
                    }
                }
            },
        }
    }
}

/// `vars` are the variables of the directory entries at `kept`.
pub open spec fn directory_variables(
    vars: Seq<ResourceVariable>,
    data: Seq<u8>,
    records: Map<u32, ResourceRecord>,
    kept: Seq<int>,
    entry_size: int,
    rows: u64,
) -> bool {
    &&& vars.len() == kept.len()
    &&& forall|k: int|
        0 <= k < vars.len() ==> {
            let entry = data.subrange(kept[k], kept[k] + entry_size);
            entry_variable(
                #[trigger] vars[k],
                data,
                entry,
                records[le_at(entry, 15, 4) as u32],
                rows,
            )
        }
}

proof fn lemma_directory_error_persists(
    data: Seq<u8>,
    records: Map<u32, ResourceRecord>,
    directory_offset: int,
    entry_size: int,
    i: nat,
    n: nat,
)
    requires
        i <= n,
        directory_entries(data, records, directory_offset, entry_size, i) is Err,
    ensures
        directory_entries(data, records, directory_offset, entry_size, n) == directory_entries(
            data,
            records,
            directory_offset,
            entry_size,
            i,
        ),
    decreases n,
{
    if i < n {
        lemma_directory_error_persists(data, records, directory_offset, entry_size, i, (n - 1) as nat);
    }
}

/// Read a signed 64-bit little-endian value from 8 bytes at `offset`.
fn i64_at(data: &[u8], offset: usize) -> (r: i64)
    requires
        offset + 8 <= data@.len(),
    ensures
        r as int == as_signed64(le_at(data@, offset as int, 8)),
{
    let raw = read_le(data, offset, 8);
    if raw < 0x8000_0000_0000_0000 {
        raw as i64
    } else {
        let low = raw - 0x8000_0000_0000_0000;
        (low as i64) - 0x7fff_ffff_ffff_ffff - 1
    }
}

/// Read the variable directory of one descriptor.
fn parse_variable_directory(
    data: &[u8],
    records: &BTreeMap<u32, ResourceRecord>,
    directory: &ResourceRecord,
    variable_count: usize,
    entry_size: usize,
    row_count: u64,
) -> (r: Result<Vec<ResourceVariable>, ResourceLayoutError>)
    requires
        entry_size >= MIN_DIRECTORY_ENTRY_SIZE,
    ensures
        match directory_entries(
            data@,
            records@,
            directory.offset as int,
            entry_size as int,
            variable_count as nat,
        ) {
            Ok(kept) => r matches Ok(vars) && directory_variables(
                vars@,
                data@,
                records@,
                kept,
                entry_size as int,
                row_count,
            ),
            Err(e) => r == Err::<Vec<ResourceVariable>, ResourceLayoutError>(e),
        },
{
    let mut variables: Vec<ResourceVariable> = Vec::new();
    let ghost mut kept: Seq<int> = Seq::empty();
    let mut index: usize = 0;
    while index < variable_count
        invariant
            index <= variable_count,
            entry_size >= MIN_DIRECTORY_ENTRY_SIZE,
            directory_entries(
                data@,
                records@,
                directory.offset as int,
                entry_size as int,
                index as nat,
            ) == Ok::<Seq<int>, ResourceLayoutError>(kept),
            directory_variables(variables@, data@, records@, kept, entry_size as int, row_count),
        decreases variable_count - index,
    {
        let ghost prefix = (index + 1) as nat;
        if index > (usize::MAX - directory.offset) / entry_size {
            assert(directory.offset + index * entry_size > usize::MAX) by (nonlinear_arith)
                requires
                    index > (usize::MAX - directory.offset) as int / entry_size as int,
                    entry_size > 0,
                    directory.offset <= usize::MAX,
            ;
            proof {
                lemma_directory_error_persists(
                    data@,
                    records@,
                    directory.offset as int,
                    entry_size as int,
                    prefix,
                    variable_count as nat,
                );
            }
            return Err(ResourceLayoutError::OffsetOverflow { context: "directory entry offset" });
        }
        assert(directory.offset + index * entry_size <= usize::MAX) by (nonlinear_arith)
            requires
                index <= (usize::MAX - directory.offset) as int / entry_size as int,
                entry_size > 0,
                directory.offset <= usize::MAX,
        ;
        let offset = directory.offset + index * entry_size;
        let checked = checked_range(data, offset, entry_size, "directory entry");
        if let Err(e) = checked {
            proof {
                lemma_directory_error_persists(
                    data@,
                    records@,
                    directory.offset as int,
                    entry_size as int,
                    prefix,
                    variable_count as nat,
                );
            }
            return Err(e);
        }
        let entry = vstd::slice::slice_subrange(data, offset, offset + entry_size);
        let name_chars = match decode_utf16_field(entry, 63, 32) {
            Some(v) => v,
            None => Vec::new(),
        };
        if name_chars.len() == 0 {
            index += 1;
            continue;
        }
        let payload_record_id = read_le(entry, 15, 4);
        proof {
            lemma_le_value_bound(entry@.subrange(15, 19));
            lemma_pow256_values();
        }
        let payload_record_id = payload_record_id as u32;
        let payload = match records.get(&payload_record_id) {
            Some(p) => *p,
            None => {
                proof {
                    lemma_directory_error_persists(
                        data@,
                        records@,
                        directory.offset as int,
                        entry_size as int,
                        prefix,
                        variable_count as nat,
                    );
                }
                return Err(ResourceLayoutError::MissingRecord { record_id: payload_record_id });
            },
        };
        let checked = checked_range(data, payload.offset, payload.length, "column payload");
        if let Err(e) = checked {
            proof {
                lemma_directory_error_persists(
                    data@,
                    records@,
                    directory.offset as int,
                    entry_size as int,
                    prefix,
                    variable_count as nat,
                );
            }
            return Err(e);
        }
        let format = entry[5];
        let mode = entry[159];
        let width = entry[149] as usize;
        let duplicate_payload = is_duplicate_payload(
            data,
            &payload,
            compact_payload_size(format, row_count),
            mode,
            width,
            row_count,
        );
        let effective_payload_length = if duplicate_payload {
            payload.length / 2
        } else {
            payload.length
        };
        let entry_index = read_le(entry, 0, 4);
        let label_resource_id = read_le(entry, 127, 4);
        let category_resource_id = read_le(entry, 131, 2);
        let object_id = read_le(entry, 155, 4);
        proof {
            lemma_le_value_bound(entry@.subrange(0, 4));
            lemma_le_value_bound(entry@.subrange(127, 131));
            lemma_le_value_bound(entry@.subrange(131, 133));
            lemma_le_value_bound(entry@.subrange(155, 159));
        }
        let value_offset_i64 = i64_at(entry, 6);
        let variable = ResourceVariable {
            entry_index: entry_index as u32,
            name: string_from_chars(name_chars.as_slice()),
            payload_record_id,
            payload_offset: payload.offset,
            payload_length: payload.length,
            effective_payload_length,
            duplicate_payload,
            width_value: width,
            label_resource_id: label_resource_id as u32,
            category_resource_id: category_resource_id as u16,
            object_id: object_id as u32,
            mode_code: mode,
            value_format_code: format,
            value_offset_i64,
        };
        let ghost old_vars = variables@;
        variables.push(variable);
        proof {
            kept = kept.push(offset as int);
            assert(entry@ == data@.subrange(offset as int, offset + entry_size));
            assert forall|k: int| 0 <= k < variables@.len() implies {
                let entry = data@.subrange(kept[k], kept[k] + entry_size);
                entry_variable(
                    #[trigger] variables@[k],
                    data@,
                    entry,
                    records@[le_at(entry, 15, 4) as u32],
                    row_count,
                )
            } by {
                if k < old_vars.len() {
                    assert(variables@[k] == old_vars[k]);
                }
            }
        }
        index += 1;
    }
    Ok(variables)
}

/// A dataset descriptor with its parsed variable directory.
#[derive(Debug)]
pub struct ParsedDescriptor {
    pub dataset_number: u32,
    pub row_count: u64,
    pub variable_count: usize,
    pub directory_offset: usize,
    pub entry_size: usize,
    pub variables: Vec<ResourceVariable>,
}

/// A reason the descriptor table is refused.
#[derive(Debug)]
pub enum TableFault {
    /// An error without a message of its own.
    Error(ResourceLayoutError),
    /// The header gives no dataset count or no descriptor size.
    MissingCounts,
    /// The descriptor size is below the minimum.
    DescriptorSizeTooSmall(u16),
    /// The descriptor table is longer than its indexed record.
    TableTooLarge,
    /// A directory entry size is below the minimum.
    EntrySizeTooSmall(u16),
    /// A directory is longer than its indexed record.
    DirectoryTooLarge,
}

/// `e` is the error that `f` describes, with its message.
pub open spec fn fault_matches(e: ResourceLayoutError, f: TableFault) -> bool {
    match f {
        TableFault::Error(x) => e == x,
        TableFault::MissingCounts => e matches ResourceLayoutError::InvalidDescriptor(m) && m@
            == "missing dataset count or descriptor size"@,
        TableFault::DescriptorSizeTooSmall(n) => e matches ResourceLayoutError::InvalidDescriptor(
            m,
        ) && m@ == "descriptor size "@ + nat_text(n as nat) + " is below 26"@,
        TableFault::TableTooLarge => e matches ResourceLayoutError::InvalidDescriptor(m) && m@
            == "descriptor table exceeds its indexed record"@,
        TableFault::EntrySizeTooSmall(n) => e matches ResourceLayoutError::InvalidDescriptor(m)
            && m@ == "directory entry size "@ + nat_text(n as nat) + " is below 160"@,
        TableFault::DirectoryTooLarge => e matches ResourceLayoutError::InvalidDescriptor(m) && m@
            == "directory exceeds its indexed record"@,
    }
}

/// The descriptor table that the header locates: its offset, the size of one
/// descriptor and the number of descriptors.
pub open spec fn descriptor_header(data: Seq<u8>, records: Map<u32, ResourceRecord>) -> Result<
    (int, int, nat),
    TableFault,
> {
    if data.len() <= DATASET_COUNT_FIELD {
        Err(
            TableFault::Error(
                ResourceLayoutError::OutOfBounds {
                    context: "dataset count",
                    start: DATASET_COUNT_FIELD,
                    end: (DATASET_COUNT_FIELD + 1) as usize,
                    length: data.len() as usize,
                },
            ),
        )
    } else {
        let count = data[DATASET_COUNT_FIELD as int] as nat;
        match range_error(data.len(), DESCRIPTOR_RECORD_SIZE_FIELD as int, 2, "descriptor size") {
            Some(e) => Err(TableFault::Error(e)),
            None => {
                let size = le_at(data, DESCRIPTOR_RECORD_SIZE_FIELD as int, 2);
                match range_error(
                    data.len(),
                    DESCRIPTOR_TABLE_RECORD_ID_FIELD as int,
                    4,
                    "descriptor record id",
                ) {
                    Some(e) => Err(TableFault::Error(e)),
                    None => {
                        let id = le_at(data, DESCRIPTOR_TABLE_RECORD_ID_FIELD as int, 4) as u32;
                        if count == 0 || size == 0 {
                            Err(TableFault::MissingCounts)
                        } else if size < MIN_DESCRIPTOR_SIZE {
                            Err(TableFault::DescriptorSizeTooSmall(size as u16))
                        } else if !records.contains_key(id) {
                            Err(TableFault::Error(ResourceLayoutError::MissingRecord { record_id: id }))
                        } else if count * size > records[id].length {
                            Err(TableFault::TableTooLarge)
                        } else {
                            match range_error(
                                data.len(),
                                records[id].offset as int,
                                (count * size) as int,
                                "descriptor table",
                            ) {
                                Some(e) => Err(TableFault::Error(e)),
                                None => Ok((records[id].offset as int, size as int, count)),
                            }
                        }
                    },
                }
            },
        }
    }
}

/// The offsets of the descriptors, among the first `n` at `base`, that
/// declare both variables and rows, or the first fault met reading them.
pub open spec fn descriptor_table(
    data: Seq<u8>,
    records: Map<u32, ResourceRecord>,
    base: int,
    size: int,
    n: nat,
) -> Result<Seq<int>, TableFault>
    decreases n,
{
    if n == 0 {
        Ok(Seq::empty())
    } else {
        match descriptor_table(data, records, base, size, (n - 1) as nat) {
            Err(f) => Err(f),
            Ok(kept) => {
                let at = base + (n - 1) * size;
                let vars = le_at(data, at + 4, 4);
                let rows = le_at(data, at + 8, 4);
                let entry_size = le_at(data, at + 20, 2);
                let directory_id = le_at(data, at + 22, 4) as u32;
                if vars == 0 || rows == 0 {
                    Ok(kept)
                } else if entry_size < MIN_DIRECTORY_ENTRY_SIZE {
                    Err(TableFault::EntrySizeTooSmall(entry_size as u16))
                } else if !records.contains_key(directory_id) {
                    Err(
                        TableFault::Error(
                            ResourceLayoutError::MissingRecord { record_id: directory_id },
                        ),
                    )
                } else if vars * entry_size > usize::MAX {
                    Err(TableFault::Error(ResourceLayoutError::OffsetOverflow { context: "directory size" }))
                } else if vars * entry_size > records[directory_id].length {
                    Err(TableFault::DirectoryTooLarge)
                } else {
                    match directory_entries(
                        data,
                        records,
                        records[directory_id].offset as int,
                        entry_size as int,
                        vars,
                    ) {
                        Err(e) => Err(TableFault::Error(e)),
                        Ok(_) => Ok(kept.push(at)),
                    }
                }
            },
        }
    }
}

/// `d` is the descriptor stored at `at`, with its directory read.
pub open spec fn descriptor_matches(
    d: ParsedDescriptor,
    data: Seq<u8>,
    records: Map<u32, ResourceRecord>,
    at: int,
) -> bool {
    let directory_id = le_at(data, at + 22, 4) as u32;
    &&& d.dataset_number as nat == le_at(data, at, 4)
    &&& d.variable_count as nat == le_at(data, at + 4, 4)
    &&& d.row_count as nat == le_at(data, at + 8, 4)
    &&& d.entry_size as nat == le_at(data, at + 20, 2)
    &&& d.directory_offset == records[directory_id].offset
    &&& directory_entries(
        data,
        records,
        d.directory_offset as int,
        d.entry_size as int,
        d.variable_count as nat,
    ) matches Ok(kept) && directory_variables(
        d.variables@,
        data,
        records,
        kept,
        d.entry_size as int,
        d.row_count,
    )
}

proof fn lemma_table_fault_persists(
    data: Seq<u8>,
    records: Map<u32, ResourceRecord>,
    base: int,
    size: int,
    i: nat,
    n: nat,
)
    requires
        i <= n,
        descriptor_table(data, records, base, size, i) is Err,
    ensures
        descriptor_table(data, records, base, size, n) == descriptor_table(
            data,
            records,
            base,
            size,
            i,
        ),
    decreases n,
{
    if i < n {
        lemma_table_fault_persists(data, records, base, size, i, (n - 1) as nat);
    }
}

/// An `InvalidDescriptor` error whose message is `prefix`, the decimal `n`
/// and `suffix`.
fn numbered_message(prefix: &str, n: u64, suffix: &str) -> (r: ResourceLayoutError)
    ensures
        r matches ResourceLayoutError::InvalidDescriptor(m) && m@ == prefix@ + nat_text(n as nat)
            + suffix@,
{
    let mut chars: Vec<char> = Vec::new();
    push_str(&mut chars, prefix);
    let digits = u64_text(n);
    push_chars(&mut chars, digits.as_slice());
    push_str(&mut chars, suffix);
    ResourceLayoutError::InvalidDescriptor(string_from_chars(chars.as_slice()))
}

/// An `InvalidDescriptor` error with message `text`.
fn plain_message(text: &str) -> (r: ResourceLayoutError)
    ensures
        r matches ResourceLayoutError::InvalidDescriptor(m) && m@ == text@,
{
    let chars = crate::text::chars_of(text);
    ResourceLayoutError::InvalidDescriptor(string_from_chars(chars.as_slice()))
}

/// Read the descriptor table and every directory it references.
pub fn parse_descriptors(data: &[u8], records: &BTreeMap<u32, ResourceRecord>) -> (r: Result<
    Vec<ParsedDescriptor>,
    ResourceLayoutError,
>)
    requires
        forall|id: u32| #[trigger]
            records@.contains_key(id) ==> records@[id].offset + records@[id].length
                <= data@.len(),
    ensures
        match descriptor_header(data@, records@) {
            Err(f) => r matches Err(e) && fault_matches(e, f),
            Ok((base, size, count)) => match descriptor_table(data@, records@, base, size, count) {
                Err(f) => r matches Err(e) && fault_matches(e, f),
                Ok(kept) => r matches Ok(ds) && ds@.len() == kept.len() && forall|k: int|
                    0 <= k < kept.len() ==> descriptor_matches(
                        #[trigger] ds@[k],
                        data@,
                        records@,
                        kept[k],
                    ),
            },
        },
{
    if data.len() <= DATASET_COUNT_FIELD {
        return Err(
            ResourceLayoutError::OutOfBounds {
                context: "dataset count",
                start: DATASET_COUNT_FIELD,
                end: DATASET_COUNT_FIELD + 1,
                length: data.len(),
            },
        );
    }
    let dataset_count = data[DATASET_COUNT_FIELD] as usize;
    let descriptor_size = u16_le(data, DESCRIPTOR_RECORD_SIZE_FIELD, "descriptor size")? as usize;
    let descriptor_id = u32_le(data, DESCRIPTOR_TABLE_RECORD_ID_FIELD, "descriptor record id")?;
    if dataset_count == 0 || descriptor_size == 0 {
        return Err(plain_message("missing dataset count or descriptor size"));
    }
    if descriptor_size < MIN_DESCRIPTOR_SIZE {
        return Err(numbered_message("descriptor size ", descriptor_size as u64, " is below 26"));
    }
    let descriptor_record = match records.get(&descriptor_id) {
        Some(record) => *record,
        None => return Err(ResourceLayoutError::MissingRecord { record_id: descriptor_id }),
    };
    assert(dataset_count * descriptor_size <= 255 * 65535) by (nonlinear_arith)
        requires
            dataset_count <= 255,
            descriptor_size <= 65535,
    ;
    let descriptor_bytes = dataset_count * descriptor_size;
    if descriptor_bytes > descriptor_record.length {
        return Err(plain_message("descriptor table exceeds its indexed record"));
    }
    checked_range(data, descriptor_record.offset, descriptor_bytes, "descriptor table")?;

    let mut descriptors: Vec<ParsedDescriptor> = Vec::new();
    let ghost mut kept: Seq<int> = Seq::empty();
    let ghost base = descriptor_record.offset as int;
    let mut index: usize = 0;
    while index < dataset_count
        invariant
            index <= dataset_count,
            forall|id: u32| #[trigger]
                records@.contains_key(id) ==> records@[id].offset + records@[id].length
                    <= data@.len(),
            descriptor_header(data@, records@) == Ok::<(int, int, nat), TableFault>(
                (base, descriptor_size as int, dataset_count as nat),
            ),
            base == descriptor_record.offset,
            descriptor_record.offset + dataset_count * descriptor_size <= data@.len(),
            descriptor_size >= MIN_DESCRIPTOR_SIZE,
            descriptor_table(data@, records@, base, descriptor_size as int, index as nat) == Ok::<
                Seq<int>,
                TableFault,
            >(kept),
            descriptors@.len() == kept.len(),
            forall|k: int|
                0 <= k < kept.len() ==> descriptor_matches(
                    #[trigger] descriptors@[k],
                    data@,
                    records@,
                    kept[k],
                ),
        decreases dataset_count - index,
    {
        let ghost prefix = (index + 1) as nat;
        assert(index * descriptor_size + descriptor_size <= dataset_count * descriptor_size)
            by (nonlinear_arith)
            requires
                index < dataset_count,
        ;
        let offset = descriptor_record.offset + index * descriptor_size;
        let variable_count = read_le(data, offset + 4, 4);
        let row_count = read_le(data, offset + 8, 4);
        let entry_size = read_le(data, offset + 20, 2);
        let directory_id = read_le(data, offset + 22, 4);
        let dataset_number = read_le(data, offset, 4);
        proof {
            lemma_le_value_bound(data@.subrange(offset + 4, offset + 8));
            lemma_le_value_bound(data@.subrange(offset + 8, offset + 12));
            lemma_le_value_bound(data@.subrange(offset + 20, offset + 22));
            lemma_le_value_bound(data@.subrange(offset + 22, offset + 26));
            lemma_le_value_bound(data@.subrange(offset as int, offset + 4));
            lemma_pow256_values();
        }
        let variable_count = variable_count as usize;
        let entry_size = entry_size as usize;
        let directory_id = directory_id as u32;
        if variable_count == 0 || row_count == 0 {
            index += 1;
            continue;
        }
        if entry_size < MIN_DIRECTORY_ENTRY_SIZE {
            proof {
                lemma_table_fault_persists(
                    data@,
                    records@,
                    base,
                    descriptor_size as int,
                    prefix,
                    dataset_count as nat,
                );
            }
            return Err(
                numbered_message("directory entry size ", entry_size as u64, " is below 160"),
            );
        }
        let directory = match records.get(&directory_id) {
            Some(record) => *record,
            None => {
                proof {
                    lemma_table_fault_persists(
                        data@,
                        records@,
                        base,
                        descriptor_size as int,
                        prefix,
                        dataset_count as nat,
                    );
                }
                return Err(ResourceLayoutError::MissingRecord { record_id: directory_id });
            },
        };
        if variable_count > usize::MAX / entry_size {
            assert(variable_count * entry_size > usize::MAX) by (nonlinear_arith)
                requires
                    variable_count > usize::MAX / entry_size,
                    entry_size > 0,
            ;
            proof {
                lemma_table_fault_persists(
                    data@,
                    records@,
                    base,
                    descriptor_size as int,
                    prefix,
                    dataset_count as nat,
                );
            }
            return Err(ResourceLayoutError::OffsetOverflow { context: "directory size" });
        }
        assert(variable_count * entry_size <= usize::MAX) by (nonlinear_arith)
            requires
                variable_count <= usize::MAX / entry_size,
                entry_size > 0,
        ;
        let directory_bytes = variable_count * entry_size;
        if directory_bytes > directory.length {
            proof {
                lemma_table_fault_persists(
                    data@,
                    records@,
                    base,
                    descriptor_size as int,
                    prefix,
                    dataset_count as nat,
                );
            }
            return Err(plain_message("directory exceeds its indexed record"));
        }
        let parsed = parse_variable_directory(
            data,
            records,
            &directory,
            variable_count,
            entry_size,
            row_count,
        );
        let variables = match parsed {
            Ok(v) => v,
            Err(e) => {
                proof {
                    lemma_table_fault_persists(
                        data@,
                        records@,
                        base,
                        descriptor_size as int,
                        prefix,
                        dataset_count as nat,
                    );
                }
                return Err(e);
            },
        };
        let ghost old_descriptors = descriptors@;
        descriptors.push(
            ParsedDescriptor {
                dataset_number: dataset_number as u32,
                row_count,
                variable_count,
                directory_offset: directory.offset,
                entry_size,
                variables,
            },
        );
        proof {
            kept = kept.push(offset as int);
            assert forall|k: int| 0 <= k < kept.len() implies descriptor_matches(
                #[trigger] descriptors@[k],
                data@,
                records@,
                kept[k],
            ) by {
                if k < old_descriptors.len() {
                    assert(descriptors@[k] == old_descriptors[k]);
                }
            }
        }
        index += 1;
    }
    Ok(descriptors)
}

/// A descriptor matched to a DDI block.
#[derive(Debug)]
pub struct ResourceLayout {
    pub block_id: String,
    pub dataset_number: u32,
    pub row_count: u64,
    pub variable_count: usize,
    pub directory_offset: usize,
    pub entry_size: usize,
    /// Columns are in DDI order and only include variables with directory entries.
    pub columns: Vec<ResourceColumn>,
}

/// A DDI variable with its directory entry.
#[derive(Debug)]
pub struct ResourceColumn {
    pub variable: VariableDefinition,
    pub resource: ResourceVariable,
}

/// The variable names of a block, in DDI order.
pub open spec fn block_names(b: BlockDefinition) -> Seq<Seq<char>> {
    b.variables@.map_values(|v: VariableDefinition| v.name@)
}

/// The variable names of a descriptor's directory.
pub open spec fn descriptor_names(d: ParsedDescriptor) -> Seq<Seq<char>> {
    d.variables@.map_values(|v: ResourceVariable| v.name@)
}

/// How many distinct names of `a` also occur in `b`.
pub open spec fn distinct_common(a: Seq<Seq<char>>, b: Seq<Seq<char>>) -> nat
    decreases a.len(),
{
    if a.len() == 0 {
        0
    } else {
        distinct_common(a.drop_last(), b) + if b.contains(a.last()) && !a.drop_last().contains(
            a.last(),
        ) {
            1nat
        } else {
            0nat
        }
    }
}

/// How well a descriptor fits a block: shared variable names, plus 10 000 for
/// the same row count and 1 000 for the same variable count.
pub open spec fn descriptor_score(d: ParsedDescriptor, b: BlockDefinition) -> nat {
    distinct_common(block_names(b), descriptor_names(d)) + (if d.row_count == b.row_count {
        10_000nat
    } else {
        0nat
    }) + (if d.variable_count == b.variables@.len() {
        1_000nat
    } else {
        0nat
    })
}

/// Descriptor `i` is unused and scores highest for `b`, the last such on ties.
pub open spec fn is_best_descriptor(
    ds: Seq<ParsedDescriptor>,
    used: Seq<bool>,
    b: BlockDefinition,
    i: int,
) -> bool {
    &&& 0 <= i < ds.len()
    &&& !used[i]
    &&& forall|j: int|
        0 <= j < ds.len() && !used[j] ==> descriptor_score(#[trigger] ds[j], b) < descriptor_score(
            ds[i],
            b,
        ) || (descriptor_score(ds[j], b) == descriptor_score(ds[i], b) && j <= i)
}

/// The position of the last name equal to `name`, or -1.
pub open spec fn last_index_of(names: Seq<Seq<char>>, name: Seq<char>) -> int
    decreases names.len(),
{
    if names.len() == 0 {
        -1
    } else if names.last() == name {
        names.len() - 1
    } else {
        last_index_of(names.drop_last(), name)
    }
}

/// The variables of `vars` whose names occur in `names`, in order.
pub open spec fn shared_variables(vars: Seq<VariableDefinition>, names: Seq<Seq<char>>) -> Seq<
    VariableDefinition,
>
    decreases vars.len(),
{
    if vars.len() == 0 {
        Seq::empty()
    } else if names.contains(vars.last().name@) {
        shared_variables(vars.drop_last(), names).push(vars.last())
    } else {
        shared_variables(vars.drop_last(), names)
    }
}

/// `cols` pair each block variable named in the directory with the last
/// directory entry of that name.
pub open spec fn columns_for(cols: Seq<ResourceColumn>, b: BlockDefinition, d: ParsedDescriptor) -> bool {
    let shared = shared_variables(b.variables@, descriptor_names(d));
    &&& cols.len() == shared.len()
    &&& forall|k: int|
        0 <= k < cols.len() ==> {
            &&& same_variable((#[trigger] cols[k]).variable, shared[k])
            &&& cols[k].resource == d.variables@[last_index_of(descriptor_names(d), shared[k].name@)]
        }
}

/// Descriptor use and matches after the first `n` blocks in `order`: each
/// block takes the best unused descriptor if they share a variable name.
pub open spec fn match_state(
    ds: Seq<ParsedDescriptor>,
    blocks: Seq<BlockDefinition>,
    order: Seq<usize>,
    n: nat,
) -> (Seq<bool>, Seq<(int, int)>)
    decreases n,
{
    if n == 0 {
        (Seq::new(ds.len(), |i: int| false), Seq::empty())
    } else {
        let (used, matches) = match_state(ds, blocks, order, (n - 1) as nat);
        let b = blocks[order[n - 1] as int];
        if exists|i: int| is_best_descriptor(ds, used, b, i) {
            let i = choose|i: int| is_best_descriptor(ds, used, b, i);
            if shared_variables(b.variables@, descriptor_names(ds[i])).len() > 0 {
                (used.update(i, true), matches.push((order[n - 1] as int, i)))
            } else {
                (used, matches)
            }
        } else {
            (used, matches)
        }
    }
}

/// `l` is the layout of block `b` read through descriptor `d`.
pub open spec fn layout_for(l: ResourceLayout, b: BlockDefinition, d: ParsedDescriptor) -> bool {
    &&& l.block_id == b.file_id
    &&& l.dataset_number == d.dataset_number
    &&& l.row_count == d.row_count
    &&& l.variable_count == d.variable_count
    &&& l.directory_offset == d.directory_offset
    &&& l.entry_size == d.entry_size
    &&& columns_for(l.columns@, b, d)
}

/// `layouts` are the layouts of the matches that the blocks, taken in
/// `order`, make with the descriptors.
pub open spec fn layouts_for(
    layouts: Seq<ResourceLayout>,
    ds: Seq<ParsedDescriptor>,
    blocks: Seq<BlockDefinition>,
    order: Seq<usize>,
) -> bool {
    let matches = match_state(ds, blocks, order, order.len()).1;
    &&& layouts.len() == matches.len()
    &&& forall|k: int|
        0 <= k < layouts.len() ==> layout_for(
            #[trigger] layouts[k],
            blocks[matches[k].0],
            ds[matches[k].1],
        )
}

proof fn lemma_best_unique(ds: Seq<ParsedDescriptor>, used: Seq<bool>, b: BlockDefinition, i: int, j: int)
    requires
        is_best_descriptor(ds, used, b, i),
        is_best_descriptor(ds, used, b, j),
    ensures
        i == j,
{
    assert(descriptor_score(ds[j], b) < descriptor_score(ds[i], b) || (descriptor_score(ds[j], b)
        == descriptor_score(ds[i], b) && j <= i));
    assert(descriptor_score(ds[i], b) < descriptor_score(ds[j], b) || (descriptor_score(ds[i], b)
        == descriptor_score(ds[j], b) && i <= j));
}

/// Whether `names` holds `name`.
fn contains_name(names: &Vec<String>, name: &String) -> (r: bool)
    ensures
        r == string_views(names@).contains(name@),
{
    let ghost views = string_views(names@);
    let mut k: usize = 0;
    while k < names.len()
        invariant
            k <= names@.len(),
            views == string_views(names@),
            forall|q: int| 0 <= q < k ==> views[q] != name@,
        decreases names@.len() - k,
    {
        if names[k] == *name {
            proof {
                assert(views[k as int] == name@);
            }
            return true;
        }
        k += 1;
    }
    false
}

/// The names of a block's variables.
fn block_name_list(b: &BlockDefinition) -> (r: Vec<String>)
    ensures
        string_views(r@) == block_names(*b),
{
    let mut r: Vec<String> = Vec::new();
    let mut k: usize = 0;
    while k < b.variables.len()
        invariant
            k <= b.variables@.len(),
            r@.len() == k,
            string_views(r@) == block_names(*b).take(k as int),
        decreases b.variables@.len() - k,
    {
        let ghost old_r = r@;
        r.push(b.variables[k].name.clone());
        k += 1;
        proof {
            assert forall|i: int| 0 <= i < k implies #[trigger] string_views(r@)[i]
                == block_names(*b).take(k as int)[i] by {
                if i < k - 1 {
                    assert(r@[i] == old_r[i]);
                    assert(string_views(old_r)[i] == block_names(*b).take(k - 1)[i]);
                }
            }
            assert(string_views(r@) =~= block_names(*b).take(k as int));
        }
    }
    proof {
        assert(block_names(*b).take(k as int) =~= block_names(*b));
    }
    r
}

/// The names of a descriptor's directory entries.
fn descriptor_name_list(d: &ParsedDescriptor) -> (r: Vec<String>)
    ensures
        string_views(r@) == descriptor_names(*d),
{
    let mut r: Vec<String> = Vec::new();
    let mut k: usize = 0;
    while k < d.variables.len()
        invariant
            k <= d.variables@.len(),
            r@.len() == k,
            string_views(r@) == descriptor_names(*d).take(k as int),
        decreases d.variables@.len() - k,
    {
        let ghost old_r = r@;
        r.push(d.variables[k].name.clone());
        k += 1;
        proof {
            assert forall|i: int| 0 <= i < k implies #[trigger] string_views(r@)[i]
                == descriptor_names(*d).take(k as int)[i] by {
                if i < k - 1 {
                    assert(r@[i] == old_r[i]);
                    assert(string_views(old_r)[i] == descriptor_names(*d).take(k - 1)[i]);
                }
            }
            assert(string_views(r@) =~= descriptor_names(*d).take(k as int));
        }
    }
    proof {
        assert(descriptor_names(*d).take(k as int) =~= descriptor_names(*d));
    }
    r
}

/// How well descriptor `d` fits block `b`.
fn score_descriptor(d: &ParsedDescriptor, b: &BlockDefinition, names: &Vec<String>) -> (r: u128)
    requires
        string_views(names@) == block_names(*b),
    ensures
        r == descriptor_score(*d, *b),
{
    let ghost a = block_names(*b);
    let dnames = descriptor_name_list(d);
    let mut count: u128 = 0;
    let mut k: usize = 0;
    while k < names.len()
        invariant
            k <= names@.len(),
            a == string_views(names@),
            string_views(dnames@) == descriptor_names(*d),
            count == distinct_common(a.take(k as int), descriptor_names(*d)),
            count <= k,
        decreases names@.len() - k,
    {
        let mut earlier = false;
        let mut q: usize = 0;
        while q < k
            invariant
                q <= k < names@.len(),
                a == string_views(names@),
                earlier == a.take(q as int).contains(a[k as int]),
            decreases k - q,
        {
            if names[q] == names[k] {
                proof {
                    assert(a.take(q + 1)[q as int] == a[k as int]);
                }
                earlier = true;
            } else {
                proof {
                    if a.take(q + 1).contains(a[k as int]) {
                        let w = choose|w: int| 0 <= w < q + 1 && #[trigger] a.take(q + 1)[w] == a[k as int];
                        if w < q {
                            assert(a.take(q as int)[w] == a[k as int]);
                        }
                    }
                    if earlier {
                        let w = choose|w: int| 0 <= w < q && #[trigger] a.take(q as int)[w] == a[k as int];
                        assert(a.take(q + 1)[w] == a[k as int]);
                    }
                }
            }
            q += 1;
        }
        let present = contains_name(&dnames, &names[k]);
        proof {
            assert(a.take(k + 1).drop_last() =~= a.take(k as int));
            assert(a.take(k + 1).last() == a[k as int]);
        }
        if present && !earlier {
            count = count + 1;
        }
        k += 1;
    }
    proof {
        assert(a.take(k as int) =~= a);
    }
    if d.row_count == b.row_count {
        count = count + 10_000;
    }
    if d.variable_count == b.variables.len() {
        count = count + 1_000;
    }
    count
}

/// The columns of block `b` read through descriptor `d`.
fn build_columns(b: &BlockDefinition, d: &ParsedDescriptor) -> (r: Vec<ResourceColumn>)
    ensures
        columns_for(r@, *b, *d),
{
    let dnames = descriptor_name_list(d);
    let ghost names = descriptor_names(*d);
    let mut columns: Vec<ResourceColumn> = Vec::new();
    let mut k: usize = 0;
    while k < b.variables.len()
        invariant
            k <= b.variables@.len(),
            string_views(dnames@) == names,
            names == descriptor_names(*d),
            columns@.len() == shared_variables(b.variables@.take(k as int), names).len(),
            forall|c: int|
                0 <= c < columns@.len() ==> {
                    let shared = shared_variables(b.variables@.take(k as int), names);
                    &&& same_variable((#[trigger] columns@[c]).variable, shared[c])
                    &&& columns@[c].resource == d.variables@[last_index_of(names, shared[c].name@)]
                },
        decreases b.variables@.len() - k,
    {
        let variable = &b.variables[k];
        let ghost before = shared_variables(b.variables@.take(k as int), names);
        proof {
            assert(b.variables@.take(k + 1).drop_last() =~= b.variables@.take(k as int));
            assert(b.variables@.take(k + 1).last() == b.variables@[k as int]);
        }
        // The last directory entry with this name.
        let mut found: Option<usize> = None;
        let mut j: usize = d.variables.len();
        proof {
            assert(names.take(j as int) =~= names);
        }
        while j > 0
            invariant_except_break
                found is None,
            invariant
                j <= d.variables@.len(),
                names.len() == d.variables@.len(),
                string_views(dnames@) == names,
                names == descriptor_names(*d),
                last_index_of(names, variable.name@) == last_index_of(names.take(j as int), variable.name@),
            ensures
                match found {
                    None => last_index_of(names, variable.name@) == -1,
                    Some(idx) => idx < names.len() && names[idx as int] == variable.name@
                        && last_index_of(names, variable.name@) == idx,
                },
            decreases j,
        {
            proof {
                assert(names.take(j as int).last() == names[j - 1]);
                assert(names[j - 1] == d.variables@[j - 1].name@);
            }
            if d.variables[j - 1].name == variable.name {
                found = Some(j - 1);
                break;
            }
            proof {
                assert(names.take(j as int).drop_last() =~= names.take(j - 1));
            }
            j -= 1;
        }
        proof {
            if found is None && j == 0 {
                assert(names.take(0) =~= Seq::<Seq<char>>::empty());
            }
        }
        match found {
            Some(index) => {
                proof {
                    assert(names.contains(variable.name@));
                }
                let ghost old_columns = columns@;
                columns.push(ResourceColumn { variable: variable.clone(), resource: d.variables[index].clone() });
                proof {
                    let after = shared_variables(b.variables@.take(k + 1), names);
                    assert(after == before.push(b.variables@[k as int]));
                    assert forall|c: int| 0 <= c < columns@.len() implies {
                        &&& same_variable((#[trigger] columns@[c]).variable, after[c])
                        &&& columns@[c].resource == d.variables@[last_index_of(names, after[c].name@)]
                    } by {
                        if c < old_columns.len() {
                            assert(columns@[c] == old_columns[c]);
                        }
                    }
                }
            },
            None => {
                proof {
                    lemma_last_index_absent(names, variable.name@);
                    assert(shared_variables(b.variables@.take(k + 1), names) == before);
                }
            },
        }
        k += 1;
    }
    proof {
        assert(b.variables@.take(k as int) =~= b.variables@);
    }
    columns
}

proof fn lemma_last_index_absent(names: Seq<Seq<char>>, name: Seq<char>)
    requires
        last_index_of(names, name) == -1,
    ensures
        !names.contains(name),
    decreases names.len(),
{
    if names.len() > 0 {
        lemma_last_index_absent(names.drop_last(), name);
        if names.contains(name) {
            let w = choose|w: int| 0 <= w < names.len() && names[w] == name;
            if w < names.len() - 1 {
                assert(names.drop_last()[w] == name);
            }
        }
    }
}

/// Match each block, in `file_id_number` order, with its best unused
/// descriptor.
pub fn match_layouts(descriptors: &Vec<ParsedDescriptor>, blocks: &[BlockDefinition]) -> (r: Vec<
    ResourceLayout,
>)
    ensures
        exists|order: Seq<usize>|
            is_stable_order(blocks@.map_values(|b: BlockDefinition| b.file_id_number as u64), order)
                && layouts_for(r@, descriptors@, blocks@, order),
{
    let mut keys: Vec<u64> = Vec::new();
    let mut q: usize = 0;
    while q < blocks.len()
        invariant
            q <= blocks@.len(),
            keys@ == blocks@.take(q as int).map_values(|b: BlockDefinition| b.file_id_number as u64),
        decreases blocks@.len() - q,
    {
        keys.push(blocks[q].file_id_number as u64);
        q += 1;
        proof {
            assert(keys@ =~= blocks@.take(q as int).map_values(
                |b: BlockDefinition| b.file_id_number as u64,
            ));
        }
    }
    proof {
        assert(blocks@.take(q as int) =~= blocks@);
    }
    let order = stable_order(&keys);
    let ghost ds = descriptors@;
    let mut used: Vec<bool> = Vec::new();
    let mut u: usize = 0;
    while u < descriptors.len()
        invariant
            u <= descriptors@.len(),
            used@ == Seq::new(u as nat, |i: int| false),
        decreases descriptors@.len() - u,
    {
        used.push(false);
        u += 1;
        proof {
            assert(used@ =~= Seq::new(u as nat, |i: int| false));
        }
    }
    let mut layouts: Vec<ResourceLayout> = Vec::new();
    let mut p: usize = 0;
    while p < order.len()
        invariant
            p <= order@.len(),
            ds == descriptors@,
            order@.len() == blocks@.len(),
            forall|i: int| 0 <= i < order@.len() ==> #[trigger] order@[i] < blocks@.len(),
            used@ == match_state(ds, blocks@, order@, p as nat).0,
            used@.len() == ds.len(),
            layouts@.len() == match_state(ds, blocks@, order@, p as nat).1.len(),
            forall|k: int|
                0 <= k < layouts@.len() ==> {
                    let m = match_state(ds, blocks@, order@, p as nat).1;
                    layout_for(#[trigger] layouts@[k], blocks@[m[k].0], ds[m[k].1])
                },
        decreases order@.len() - p,
    {
        let block = &blocks[order[p]];
        let names = block_name_list(block);
        let mut best: Option<usize> = None;
        let mut best_score: u128 = 0;
        let mut i: usize = 0;
        while i < descriptors.len()
            invariant
                i <= descriptors@.len(),
                ds == descriptors@,
                used@.len() == ds.len(),
                string_views(names@) == block_names(*block),
                match best {
                    None => forall|j: int| 0 <= j < i ==> #[trigger] used@[j],
                    Some(b) => b < i && !used@[b as int] && best_score == descriptor_score(
                        ds[b as int],
                        *block,
                    ) && forall|j: int|
                        0 <= j < i && !used@[j] ==> descriptor_score(#[trigger] ds[j], *block)
                            < best_score || (descriptor_score(ds[j], *block) == best_score && j
                            <= b),
                },
            decreases descriptors@.len() - i,
        {
            if !used[i] {
                let score = score_descriptor(&descriptors[i], block, &names);
                if best.is_none() || score >= best_score {
                    best = Some(i);
                    best_score = score;
                }
            }
            i += 1;
        }
        let ghost prev = match_state(ds, blocks@, order@, p as nat);
        proof {
            assert(prev.0 == used@);
        }
        match best {
            None => {
                proof {
                    if exists|i: int| is_best_descriptor(ds, used@, *block, i) {
                        let w = choose|i: int| is_best_descriptor(ds, used@, *block, i);
                        assert(used@[w]);
                    }
                }
            },
            Some(index) => {
                proof {
                    assert(is_best_descriptor(ds, used@, *block, index as int));
                    let c = choose|i: int| is_best_descriptor(ds, used@, *block, i);
                    lemma_best_unique(ds, used@, *block, c, index as int);
                }
                let descriptor = &descriptors[index];
                let columns = build_columns(block, descriptor);
                if columns.len() > 0 {
                    used.set(index, true);
                    let ghost old_layouts = layouts@;
                    layouts.push(
                        ResourceLayout {
                            block_id: block.file_id.clone(),
                            dataset_number: descriptor.dataset_number,
                            row_count: descriptor.row_count,
                            variable_count: descriptor.variable_count,
                            directory_offset: descriptor.directory_offset,
                            entry_size: descriptor.entry_size,
                            columns,
                        },
                    );
                    proof {
                        let m = match_state(ds, blocks@, order@, (p + 1) as nat).1;
                        assert(m == prev.1.push((order@[p as int] as int, index as int)));
                        assert forall|k: int| 0 <= k < layouts@.len() implies layout_for(
                            #[trigger] layouts@[k],
                            blocks@[m[k].0],
                            ds[m[k].1],
                        ) by {
                            if k < old_layouts.len() {
                                assert(layouts@[k] == old_layouts[k]);
                                assert(m[k] == prev.1[k]);
                            }
                        }
                    }
                }
            },
        }
        p += 1;
    }
    proof {
        assert(keys@ == blocks@.map_values(|b: BlockDefinition| b.file_id_number as u64));
        assert(layouts_for(layouts@, descriptors@, blocks@, order@));
    }
    layouts
}

/// Every record of a successfully read index lies inside the data.
proof fn lemma_index_records_in_bounds(data: Seq<u8>, base: int, n: nat)
    requires
        index_records(data, base, n) is Ok,
    ensures
        forall|id: u32| #[trigger]
            index_records(data, base, n).unwrap().contains_key(id) ==> index_records(
                data,
                base,
                n,
            ).unwrap()[id].offset + index_records(data, base, n).unwrap()[id].length
                <= data.len(),
    decreases n,
{
    if n > 0 {
        lemma_index_records_in_bounds(data, base, (n - 1) as nat);
    }
}

/// Reading the layouts of `data` succeeds with `layouts`: the record index,
/// the header and the descriptor table are read, and the layouts are the
/// matches of `blocks` with those descriptors.
pub open spec fn resource_layouts_ok(
    data: Seq<u8>,
    blocks: Seq<BlockDefinition>,
    layouts: Seq<ResourceLayout>,
) -> bool {
    &&& resource_index_spec(data) is Ok
    &&& descriptor_header(data, resource_index_spec(data).unwrap()) is Ok
    &&& {
        let records = resource_index_spec(data).unwrap();
        let (base, size, count) = descriptor_header(data, records).unwrap();
        &&& descriptor_table(data, records, base, size, count) is Ok
        &&& exists|ds: Seq<ParsedDescriptor>, order: Seq<usize>|
            #[trigger] layouts_from_table(
                layouts,
                data,
                blocks,
                records,
                descriptor_table(data, records, base, size, count).unwrap(),
                ds,
                order,
            )
    }
}

/// Reading the layouts of `data` fails with `e`: the first failing step, the
/// record index, the header or the descriptor table, gives `e`.
pub open spec fn resource_layouts_err(data: Seq<u8>, e: ResourceLayoutError) -> bool {
    match resource_index_spec(data) {
        Err(x) => e == x,
        Ok(records) => match descriptor_header(data, records) {
            Err(f) => fault_matches(e, f),
            Ok((base, size, count)) => match descriptor_table(data, records, base, size, count) {
                Err(f) => fault_matches(e, f),
                Ok(_) => false,
            },
        },
    }
}

/// What reading every layout of `data` for `blocks` gives.
pub open spec fn resource_layouts_result(
    data: Seq<u8>,
    blocks: Seq<BlockDefinition>,
    r: Result<Vec<ResourceLayout>, ResourceLayoutError>,
) -> bool {
    match r {
        Ok(layouts) => resource_layouts_ok(data, blocks, layouts@),
        Err(e) => resource_layouts_err(data, e),
    }
}

/// `layouts` come from descriptors `ds`, read at the offsets `kept`, matched
/// to `blocks` taken in the stable `file_id_number` order `order`.
pub open spec fn layouts_from_table(
    layouts: Seq<ResourceLayout>,
    data: Seq<u8>,
    blocks: Seq<BlockDefinition>,
    records: Map<u32, ResourceRecord>,
    kept: Seq<int>,
    ds: Seq<ParsedDescriptor>,
    order: Seq<usize>,
) -> bool {
    &&& ds.len() == kept.len()
    &&& forall|k: int|
        0 <= k < kept.len() ==> descriptor_matches(#[trigger] ds[k], data, records, kept[k])
    &&& is_stable_order(blocks.map_values(|b: BlockDefinition| b.file_id_number as u64), order)
    &&& layouts_for(layouts, ds, blocks, order)
}

/// Parse every descriptor that can be reached through a valid resource index
/// and match it to the DDI blocks.
pub fn parse_resource_layouts(data: &[u8], blocks: &[BlockDefinition]) -> (r: Result<
    Vec<ResourceLayout>,
    ResourceLayoutError,
>)
    ensures
        resource_layouts_result(data@, blocks@, r),
{
    let records = parse_resource_index(data)?;
    proof {
        let io = le_at(data@, RESOURCE_INDEX_OFFSET_FIELD as int, 6);
        let count = le_at(data@, io as int, 4);
        lemma_index_records_in_bounds(data@, io + 4 as int, count);
    }
    let descriptors = parse_descriptors(data, &records)?;
    let layouts = match_layouts(&descriptors, blocks);
    proof {
        let order = choose|order: Seq<usize>|
            is_stable_order(blocks@.map_values(|b: BlockDefinition| b.file_id_number as u64), order)
                && layouts_for(layouts@, descriptors@, blocks@, order);
        let records_map = resource_index_spec(data@).unwrap();
        assert(records_map == records@);
        assert(descriptor_header(data@, records_map) is Ok);
        let (base, size, count) = descriptor_header(data@, records_map).unwrap();
        assert(descriptor_table(data@, records_map, base, size, count) is Ok);
        let kept = descriptor_table(data@, records_map, base, size, count).unwrap();
        assert(layouts_from_table(layouts@, data@, blocks@, records_map, kept, descriptors@, order));

    }
    Ok(layouts)
}

/// `core::slice::from_ref` views one value as a slice of length one.
pub assume_specification<T>[ core::slice::from_ref::<T> ](s: &T) -> (r: &[T])
    ensures
        r@ == seq![*s],
;

/// What looking for one block's layout in the resource index gives: the
/// first layout that matching this block alone yields, or why there is none.
pub open spec fn resource_discovery(
    data: Seq<u8>,
    block: BlockDefinition,
    r: Result<ResourceLayout, ResourceLayoutError>,
) -> bool {
    exists|all: Result<Vec<ResourceLayout>, ResourceLayoutError>|
        {
            &&& resource_layouts_result(data, seq![block], all)
            &&& match all {
                Err(e) => r == Err::<ResourceLayout, ResourceLayoutError>(e),
                Ok(ls) => if ls@.len() == 0 {
                    r == Err::<ResourceLayout, ResourceLayoutError>(
                        ResourceLayoutError::NotFound { block_id: block.file_id },
                    )
                } else {
                    r == Ok::<ResourceLayout, ResourceLayoutError>(ls@[0])
                },
            }
        }
}

/// The layout of one block, if the resource index describes it: the first
/// layout that matching this block alone yields.
pub fn discover_resource_layout(data: &[u8], block: &BlockDefinition) -> (r: Result<
    ResourceLayout,
    ResourceLayoutError,
>)
    ensures
        resource_discovery(data@, *block, r),
{
    let blocks = core::slice::from_ref(block);
    let all = parse_resource_layouts(data, blocks);
    proof {
        assert(blocks@ == seq![*block]);
    }
    match all {
        Err(e) => Err(e),
        Ok(mut layouts) => {
            if layouts.len() == 0 {
                Err(ResourceLayoutError::NotFound { block_id: block.file_id.clone() })
            } else {
                let ghost snapshot = layouts@;
                let first = layouts.swap_remove(0);
                proof {
                    assert(first == snapshot[0]);
                }
                Ok(first)
            }
        },
    }
}

} // verus!
