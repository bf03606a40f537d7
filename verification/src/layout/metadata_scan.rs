//! Metadata-scan layout discovery.
//!
//! Older Nesstar files place fixed-size variable metadata slots directly after
//! their column-major payload. There is no authoritative index for those
//! slots, so a candidate is only accepted after its first and last names have
//! been checked against the DDI and every offset computation has been checked.

use std::collections::BTreeSet;
use vstd::prelude::*;
use crate::bytes::{lemma_le_value_bound, lemma_pow256_values, read_le};
use crate::double::{saturating_trunc, trunc_to_i128};
use vstd::arithmetic::power2::pow2;
use crate::layout::resource_index::le_at;
use crate::model::{BlockDefinition, NumericRange, VariableDefinition, same_variable};
use crate::order::{is_stable_order, stable_order};
use crate::text::{
    chars_of, decode_utf16_field, encode_utf16le, names_close, names_close_spec, nat_text, push_str,
    string_from_chars, trim, trim_chars, u64_text, utf16le,
    utf16_field,
};

verus! {

/// The bytes of one metadata slot.
pub const SLOT_SIZE: usize = 160;
/// Where a slot's UTF-16LE name starts.
pub const NAME_OFFSET: usize = 63;
/// The bytes a slot's name may take.
pub const NAME_LENGTH: usize = 80;
/// The largest variable number a valid slot carries.
pub const MAX_VAR_NUMBER: u32 = 50_000;
/// How many slots a table is scanned for at most.
pub const DEFAULT_MAX_SLOTS: usize = 200;

/// Why a metadata-scan layout could not be built.
#[derive(Debug, PartialEq, Eq)]
pub enum MetadataLayoutError {
    OffsetOverflow { context: &'static str },
    OutOfBounds { context: &'static str, start: usize, end: usize, length: usize },
    TruncatedSlot { slot_index: usize, offset: usize },
    EmptyBlock { block_id: String },
    NotFound { block_id: String },
    IncompatibleSlotCount { ddi_count: usize, slot_count: usize },
    NoNameOverlap { ddi_count: usize, slot_count: usize },
    ZeroWidth { variable: String },
    PayloadOutOfBounds { variable: String },
}

/// The text of a metadata layout error, as it is shown to a user.
pub open spec fn metadata_error_text(e: MetadataLayoutError) -> Seq<char> {
    match e {
        MetadataLayoutError::OffsetOverflow { context } => "metadata "@ + context@
            + ": offset arithmetic overflow"@,
        MetadataLayoutError::OutOfBounds { context, start, end, length } => "metadata "@ + context@
            + ": range "@ + crate::text::nat_text(start as nat) + ".."@ + crate::text::nat_text(
            end as nat,
        ) + " exceeds "@ + crate::text::nat_text(length as nat) + " bytes"@,
        MetadataLayoutError::TruncatedSlot { slot_index, offset } => "metadata slot "@
            + crate::text::nat_text(slot_index as nat) + " at offset "@ + crate::text::nat_text(
            offset as nat,
        ) + " is truncated"@,
        MetadataLayoutError::EmptyBlock { block_id } => "metadata layout for block `"@ + block_id@
            + "` has no variables"@,
        MetadataLayoutError::NotFound { block_id } => "metadata layout for block `"@ + block_id@
            + "` could not be found"@,
        MetadataLayoutError::IncompatibleSlotCount { ddi_count, slot_count } => "DDI has "@
            + crate::text::nat_text(ddi_count as nat) + " variables but metadata has "@
            + crate::text::nat_text(slot_count as nat) + " slots"@,
        MetadataLayoutError::NoNameOverlap { ddi_count, slot_count } => "DDI has "@
            + crate::text::nat_text(ddi_count as nat) + " variables and metadata has "@
            + crate::text::nat_text(slot_count as nat) + " slots with no name overlap"@,
        MetadataLayoutError::ZeroWidth { variable } => "metadata width for `"@ + variable@
            + "` is zero"@,
        MetadataLayoutError::PayloadOutOfBounds { variable } => "metadata payload for `"@
            + variable@ + "` is outside the source"@,
    }
}

impl MetadataLayoutError {
    /// The text of this error, as it is shown to a user.
    pub fn message(&self) -> (r: String)
        ensures
            r@ == metadata_error_text(*self),
    {
        let mut m: Vec<char> = Vec::new();
        match self {
            MetadataLayoutError::OffsetOverflow { context } => {
                crate::text::push_str(&mut m, "metadata ");
                crate::text::push_str(&mut m, context);
                crate::text::push_str(&mut m, ": offset arithmetic overflow");
            },
            MetadataLayoutError::OutOfBounds { context, start, end, length } => {
                crate::text::push_str(&mut m, "metadata ");
                crate::text::push_str(&mut m, context);
                crate::text::push_str(&mut m, ": range ");
                crate::text::push_nat(&mut m, *start as u64);
                crate::text::push_str(&mut m, "..");
                crate::text::push_nat(&mut m, *end as u64);
                crate::text::push_str(&mut m, " exceeds ");
                crate::text::push_nat(&mut m, *length as u64);
                crate::text::push_str(&mut m, " bytes");
            },
            MetadataLayoutError::TruncatedSlot { slot_index, offset } => {
                crate::text::push_str(&mut m, "metadata slot ");
                crate::text::push_nat(&mut m, *slot_index as u64);
                crate::text::push_str(&mut m, " at offset ");
                crate::text::push_nat(&mut m, *offset as u64);
                crate::text::push_str(&mut m, " is truncated");
            },
            MetadataLayoutError::EmptyBlock { block_id } => {
                crate::text::push_str(&mut m, "metadata layout for block `");
                crate::text::push_str(&mut m, block_id.as_str());
                crate::text::push_str(&mut m, "` has no variables");
            },
            MetadataLayoutError::NotFound { block_id } => {
                crate::text::push_str(&mut m, "metadata layout for block `");
                crate::text::push_str(&mut m, block_id.as_str());
                crate::text::push_str(&mut m, "` could not be found");
            },
            MetadataLayoutError::IncompatibleSlotCount { ddi_count, slot_count } => {
                crate::text::push_str(&mut m, "DDI has ");
                crate::text::push_nat(&mut m, *ddi_count as u64);
                crate::text::push_str(&mut m, " variables but metadata has ");
                crate::text::push_nat(&mut m, *slot_count as u64);
                crate::text::push_str(&mut m, " slots");
            },
            MetadataLayoutError::NoNameOverlap { ddi_count, slot_count } => {
                crate::text::push_str(&mut m, "DDI has ");
                crate::text::push_nat(&mut m, *ddi_count as u64);
                crate::text::push_str(&mut m, " variables and metadata has ");
                crate::text::push_nat(&mut m, *slot_count as u64);
                crate::text::push_str(&mut m, " slots with no name overlap");
            },
            MetadataLayoutError::ZeroWidth { variable } => {
                crate::text::push_str(&mut m, "metadata width for `");
                crate::text::push_str(&mut m, variable.as_str());
                crate::text::push_str(&mut m, "` is zero");
            },
            MetadataLayoutError::PayloadOutOfBounds { variable } => {
                crate::text::push_str(&mut m, "metadata payload for `");
                crate::text::push_str(&mut m, variable.as_str());
                crate::text::push_str(&mut m, "` is outside the source");
            },
        }
        proof {
            assert(m@ =~= metadata_error_text(*self));
        }
        string_from_chars(m.as_slice())
    }
}

/// How the values of one metadata column are stored.
#[derive(Clone, Copy, Debug, PartialEq, Eq, Structural)]
pub enum MetadataEncoding {
    FixedAscii,
    LittleEndianDouble,
    OffsetInteger,
}

/// One fixed-size metadata slot.
#[derive(Debug, PartialEq, Eq)]
pub struct MetadataSlot {
    pub var_num: u32,
    pub encoding: MetadataEncoding,
    pub char_width: usize,
    pub name: String,
    /// Position in the metadata table, used to restore DDI order later.
    pub slot_index: usize,
}

impl Clone for MetadataSlot {
    fn clone(&self) -> (res: Self)
        ensures
            res == *self,
    {
        MetadataSlot {
            var_num: self.var_num,
            encoding: self.encoding,
            char_width: self.char_width,
            name: self.name.clone(),
            slot_index: self.slot_index,
        }
    }
}

/// A DDI variable paired with its metadata slot.
#[derive(Debug)]
pub struct MetadataColumn {
    pub variable: VariableDefinition,
    pub slot: MetadataSlot,
    /// Bytes per value in the column-major binary payload.
    pub binary_width: usize,
}

/// A metadata table and the payload in front of it.
#[derive(Debug)]
pub struct MetadataLayout {
    pub metadata_offset: usize,
    pub data_offset: usize,
    /// Columns are in binary (`var_num`) order, as required for payload reads.
    pub columns: Vec<MetadataColumn>,
}

/// The byte offset of slot `index` of the table at `metadata_offset`.
pub open spec fn slot_start(metadata_offset: int, index: int) -> int {
    metadata_offset + index * SLOT_SIZE
}

/// The slot offset can be computed without overflow.
pub open spec fn slot_offset_fits(metadata_offset: int, index: int) -> bool {
    index * SLOT_SIZE <= usize::MAX && slot_start(metadata_offset, index) <= usize::MAX
}

/// The offset of slot `index`, or an overflow error.
fn slot_offset(metadata_offset: usize, index: usize) -> (r: Result<usize, MetadataLayoutError>)
    ensures
        slot_offset_fits(metadata_offset as int, index as int) ==> r == Ok::<
            usize,
            MetadataLayoutError,
        >(slot_start(metadata_offset as int, index as int) as usize),
        !slot_offset_fits(metadata_offset as int, index as int) ==> r == Err::<
            usize,
            MetadataLayoutError,
        >(MetadataLayoutError::OffsetOverflow { context: "metadata slot offset" }),
{
    if index > usize::MAX / SLOT_SIZE {
        return Err(MetadataLayoutError::OffsetOverflow { context: "metadata slot offset" });
    }
    let step = index * SLOT_SIZE;
    if metadata_offset > usize::MAX - step {
        return Err(MetadataLayoutError::OffsetOverflow { context: "metadata slot offset" });
    }
    Ok(metadata_offset + step)
}

/// The error, if any, of taking `length` bytes at `start` from `data_len` bytes.
pub open spec fn range_error(data_len: nat, start: int, length: int, context: &'static str) -> Option<
    MetadataLayoutError,
> {
    if start + length > usize::MAX {
        Some(MetadataLayoutError::OffsetOverflow { context })
    } else if start + length > data_len {
        Some(
            MetadataLayoutError::OutOfBounds {
                context,
                start: start as usize,
                end: (start + length) as usize,
                length: data_len as usize,
            },
        )
    } else {
        None
    }
}

/// Check that `length` bytes at `start` lie inside `data`.
fn checked_range(data: &[u8], start: usize, length: usize, context: &'static str) -> (r: Result<
    (),
    MetadataLayoutError,
>)
    ensures
        match range_error(data@.len(), start as int, length as int, context) {
            Some(e) => r == Err::<(), MetadataLayoutError>(e),
            None => r is Ok,
        },
{
    if start > usize::MAX - length {
        return Err(MetadataLayoutError::OffsetOverflow { context });
    }
    let end = start + length;
    if end > data.len() {
        return Err(MetadataLayoutError::OutOfBounds { context, start, end, length: data.len() });
    }
    Ok(())
}

/// The variable number stored at the start of the slot at `at`.
pub open spec fn slot_var_num(data: Seq<u8>, at: int) -> nat {
    le_at(data, at, 4)
}

/// The name of the slot at `at`: NUL-terminated UTF-16LE in 80 bytes at
/// offset 63, or nothing when it is not valid UTF-16.
pub open spec fn slot_name(data: Seq<u8>, at: int) -> Option<Seq<char>> {
    utf16_field(data, at + NAME_OFFSET, (NAME_LENGTH / 2) as nat)
}

/// The slot at `at` is a well-formed metadata slot.
pub open spec fn slot_well_formed(data: Seq<u8>, at: int) -> bool {
    &&& at + SLOT_SIZE <= data.len()
    &&& 0 < slot_var_num(data, at) <= MAX_VAR_NUMBER
    &&& slot_name(data, at) matches Some(name) && trim(name).len() > 0
}

/// Slot `index` of the table at `metadata_offset` is a well-formed slot.
pub open spec fn slot_valid(data: Seq<u8>, metadata_offset: int, index: int) -> bool {
    slot_offset_fits(metadata_offset, index) && slot_well_formed(
        data,
        slot_start(metadata_offset, index),
    )
}

/// Read the variable number of the slot at `at`.
fn read_var_num(data: &[u8], at: usize) -> (r: u32)
    requires
        at + 4 <= data@.len(),
    ensures
        r as nat == slot_var_num(data@, at as int),
{
    proof {
        lemma_le_value_bound(data@.subrange(at as int, at + 4));
        lemma_pow256_values();
    }
    read_le(data, at, 4) as u32
}

/// Decode the name of the slot at `at`.
fn decode_slot_name(data: &[u8], at: usize) -> (r: Option<Vec<char>>)
    requires
        at + SLOT_SIZE <= data@.len(),
    ensures
        match r {
            Some(v) => slot_name(data@, at as int) == Some(v@),
            None => slot_name(data@, at as int) is None,
        },
{
    let _len = data.len();
    let r = decode_utf16_field(data, at + 63, 40);
    proof {
        assert(slot_name(data@, at as int) == utf16_field(data@, at + 63, 40));
    }
    r
}

/// Whether slot `index` of the table at `metadata_offset` is well formed.
fn slot_is_valid(data: &[u8], metadata_offset: usize, index: usize) -> (r: bool)
    ensures
        r == slot_valid(data@, metadata_offset as int, index as int),
{
    let _len = data.len();
    let at = match slot_offset(metadata_offset, index) {
        Ok(at) => at,
        Err(_) => return false,
    };
    if checked_range(data, at, SLOT_SIZE, "metadata slot").is_err() {
        return false;
    }
    let var_num = read_var_num(data, at);
    if var_num == 0 || var_num > MAX_VAR_NUMBER {
        return false;
    }
    match decode_slot_name(data, at) {
        Some(name) => trim_chars(name.as_slice()).len() > 0,
        None => false,
    }
}

/// Count adjacent well-formed metadata slots, stopping at the first invalid
/// record. A truncated record is not treated as a valid slot.
pub fn count_metadata_slots(data: &[u8], metadata_offset: usize, max_slots: usize) -> (n: usize)
    ensures
        n <= max_slots,
        forall|i: int| 0 <= i < n ==> slot_valid(data@, metadata_offset as int, i),
        n < max_slots ==> !slot_valid(data@, metadata_offset as int, n as int),
{
    let mut n: usize = 0;
    while n < max_slots
        invariant
            n <= max_slots,
            forall|i: int| 0 <= i < n ==> slot_valid(data@, metadata_offset as int, i),
        ensures
            n <= max_slots,
            forall|i: int| 0 <= i < n ==> slot_valid(data@, metadata_offset as int, i),
            n < max_slots ==> !slot_valid(data@, metadata_offset as int, n as int),
        decreases max_slots - n,
    {
        if !slot_is_valid(data, metadata_offset, n) {
            break;
        }
        n += 1;
    }
    n
}

/// How slot bytes `4` and `5` select the value encoding.
pub open spec fn encoding_of(flag: u8, format: u8) -> MetadataEncoding {
    if flag == 1 {
        MetadataEncoding::FixedAscii
    } else if format == 10 {
        MetadataEncoding::LittleEndianDouble
    } else {
        MetadataEncoding::OffsetInteger
    }
}

/// The name a slot is read with: its own, or `var_` and its number when the
/// stored name is not valid UTF-16.
pub open spec fn slot_name_or_default(data: Seq<u8>, at: int) -> Seq<char> {
    match slot_name(data, at) {
        Some(name) => name,
        None => "var_"@ + nat_text(slot_var_num(data, at)),
    }
}

/// `slot` is slot `index` of the table at `metadata_offset`, as read.
pub open spec fn slot_read(slot: MetadataSlot, data: Seq<u8>, metadata_offset: int, index: int) -> bool {
    let at = slot_start(metadata_offset, index);
    &&& slot.var_num as nat == slot_var_num(data, at)
    &&& slot.encoding == encoding_of(data[at + 4], data[at + 5])
    &&& slot.char_width == data[at + 14] as usize
    &&& slot.name@ == slot_name_or_default(data, at)
    &&& slot.slot_index == index
}

/// The error of reading slot `index`, if any.
pub open spec fn slot_read_error(data_len: nat, metadata_offset: int, index: int) -> Option<
    MetadataLayoutError,
> {
    let at = slot_start(metadata_offset, index);
    if !slot_offset_fits(metadata_offset, index) {
        Some(MetadataLayoutError::OffsetOverflow { context: "metadata slot offset" })
    } else if at + SLOT_SIZE > usize::MAX {
        Some(MetadataLayoutError::OffsetOverflow { context: "metadata slot" })
    } else if at + SLOT_SIZE > data_len {
        Some(
            MetadataLayoutError::TruncatedSlot {
                slot_index: index as usize,
                offset: at as usize,
            },
        )
    } else {
        None
    }
}

/// The first error of reading slots `0..n`, if any.
pub open spec fn slots_read_error(data_len: nat, metadata_offset: int, n: nat) -> Option<
    MetadataLayoutError,
>
    decreases n,
{
    if n == 0 {
        None
    } else {
        match slots_read_error(data_len, metadata_offset, (n - 1) as nat) {
            Some(e) => Some(e),
            None => slot_read_error(data_len, metadata_offset, n - 1),
        }
    }
}

proof fn lemma_slots_read_error_prefix(data_len: nat, metadata_offset: int, n: nat, i: int)
    requires
        slots_read_error(data_len, metadata_offset, n) is None,
        0 <= i < n,
    ensures
        slot_read_error(data_len, metadata_offset, i) is None,
    decreases n,
{
    if i < n - 1 {
        lemma_slots_read_error_prefix(data_len, metadata_offset, (n - 1) as nat, i);
    }
}

proof fn lemma_slots_read_error_first(data_len: nat, metadata_offset: int, i: nat, n: nat)
    requires
        slots_read_error(data_len, metadata_offset, i) is None,
        i < n,
    ensures
        slots_read_error(data_len, metadata_offset, n) == slot_read_error(
            data_len,
            metadata_offset,
            i as int,
        ) || (slot_read_error(data_len, metadata_offset, i as int) is None && slots_read_error(
            data_len,
            metadata_offset,
            (i + 1) as nat,
        ) is None),
        slot_read_error(data_len, metadata_offset, i as int) is Some ==> slots_read_error(
            data_len,
            metadata_offset,
            n,
        ) == slot_read_error(data_len, metadata_offset, i as int),
    decreases n,
{
    if n > i + 1 {
        lemma_slots_read_error_first(data_len, metadata_offset, i, (n - 1) as nat);
    }
}

/// The name `var_` followed by the decimal digits of `var_num`.
fn default_slot_name(var_num: u32) -> (s: String)
    ensures
        s@ == "var_"@ + nat_text(var_num as nat),
{
    let mut chars: Vec<char> = Vec::new();
    push_str(&mut chars, "var_");
    let digits = u64_text(var_num as u64);
    crate::text::push_chars(&mut chars, digits.as_slice());
    string_from_chars(chars.as_slice())
}

/// Read one slot that lies inside `data`.
fn read_slot(data: &[u8], at: usize, slot_index: usize, Ghost(metadata_offset): Ghost<int>) -> (
    slot: MetadataSlot)
    requires
        at + SLOT_SIZE <= data@.len(),
        at == slot_start(metadata_offset, slot_index as int),
    ensures
        slot_read(slot, data@, metadata_offset, slot_index as int),
{
    let _len = data.len();
    let var_num = read_var_num(data, at);
    let encoding = if data[at + 4] == 1 {
        MetadataEncoding::FixedAscii
    } else if data[at + 5] == 10 {
        MetadataEncoding::LittleEndianDouble
    } else {
        MetadataEncoding::OffsetInteger
    };
    let name = match decode_slot_name(data, at) {
        Some(chars) => string_from_chars(chars.as_slice()),
        None => default_slot_name(var_num),
    };
    MetadataSlot { var_num, encoding, char_width: data[at + 14] as usize, name, slot_index }
}

/// Read a requested number of metadata slots. Unlike counting, this reports a
/// truncated requested slot as an error so callers cannot silently decode a
/// partial layout.
pub fn read_metadata_slots(data: &[u8], metadata_offset: usize, slot_count: usize) -> (r: Result<
    Vec<MetadataSlot>,
    MetadataLayoutError,
>)
    ensures
        match slots_read_error(data@.len(), metadata_offset as int, slot_count as nat) {
            Some(e) => r == Err::<Vec<MetadataSlot>, MetadataLayoutError>(e),
            None => r matches Ok(slots) && slots@.len() == slot_count && forall|i: int|
                0 <= i < slot_count ==> slot_read(
                    #[trigger] slots@[i],
                    data@,
                    metadata_offset as int,
                    i,
                ),
        },
{
    let mut slots: Vec<MetadataSlot> = Vec::new();
    let mut i: usize = 0;
    while i < slot_count
        invariant
            i <= slot_count,
            slots_read_error(data@.len(), metadata_offset as int, i as nat) is None,
            slots@.len() == i,
            forall|k: int| 0 <= k < i ==> slot_read(#[trigger] slots@[k], data@, metadata_offset as int, k),
        decreases slot_count - i,
    {
        let ghost mo = metadata_offset as int;
        proof {
            lemma_slots_read_error_first(data@.len(), mo, i as nat, slot_count as nat);
        }
        let at = slot_offset(metadata_offset, i)?;
        if at > usize::MAX - SLOT_SIZE {
            return Err(MetadataLayoutError::OffsetOverflow { context: "metadata slot" });
        }
        if at + SLOT_SIZE > data.len() {
            return Err(MetadataLayoutError::TruncatedSlot { slot_index: i, offset: at });
        }
        let slot = read_slot(data, at, i, Ghost(mo));
        slots.push(slot);
        i += 1;
        proof {
            assert(slots_read_error(data@.len(), mo, i as nat) is None);
        }
    }
    proof {
        assert forall|k: int| 0 <= k < slot_count implies slot_read(
            #[trigger] slots@[k],
            data@,
            metadata_offset as int,
            k,
        ) by {}
    }
    Ok(slots)
}

/// A double bound converted to `i128` as Rust's `as` converts it.
pub open spec fn bound_i128(bits: u64) -> int {
    saturating_trunc(bits, i128::MIN as int, i128::MAX as int)
}

/// The declared maximum minus the declared minimum, when both are present.
pub open spec fn range_delta(range: Option<NumericRange>) -> Option<int> {
    match range {
        Some(r) => match (r.minimum, r.maximum) {
            (Some(lo), Some(hi)) => Some(bound_i128(hi) - bound_i128(lo)),
            _ => None,
        },
        None => None,
    }
}

/// `10` raised to `n`.
pub open spec fn pow10(n: nat) -> nat
    decreases n,
{
    if n == 0 {
        1
    } else {
        10 * pow10((n - 1) as nat)
    }
}

/// `10^n`, saturating at `u128::MAX`.
pub open spec fn saturating_pow10(n: nat) -> nat {
    if pow10(n) > u128::MAX {
        u128::MAX as nat
    } else {
        pow10(n)
    }
}

/// The number of binary digits of `n` (none for zero).
pub open spec fn bit_length(n: nat) -> nat
    decreases n,
{
    if n == 0 {
        0
    } else {
        1 + bit_length(n / 2)
    }
}

/// The value range that an offset-integer column must cover: the declared
/// range (at least one), or `10^ddi_width - 1` when no full range is declared.
pub open spec fn offset_value_span(range: Option<NumericRange>, ddi_width: u32) -> nat {
    match range_delta(range) {
        Some(d) => if d < 1 {
            1
        } else {
            d as nat
        },
        None => if saturating_pow10(ddi_width as nat) == 0 {
            0
        } else {
            (saturating_pow10(ddi_width as nat) - 1) as nat
        },
    }
}

/// The bytes needed for an offset-integer column: the span's binary digits
/// (at least one) rounded up to whole bytes.
pub open spec fn width_for_range_spec(range: Option<NumericRange>, ddi_width: u32) -> nat {
    let digits = bit_length(offset_value_span(range, ddi_width));
    let bits = if digits < 1 {
        1
    } else {
        digits
    };
    (bits + 7) / 8
}

proof fn lemma_pow10_grows(a: nat, b: nat)
    requires
        a <= b,
    ensures
        pow10(a) <= pow10(b),
    decreases b,
{
    if a < b {
        lemma_pow10_grows(a, (b - 1) as nat);
    }
}

/// `10^n`, saturating at `u128::MAX`.
fn saturating_pow10_u128(n: u32) -> (r: u128)
    ensures
        r as nat == saturating_pow10(n as nat),
{
    let mut p: u128 = 1;
    let mut k: u32 = 0;
    while k < n
        invariant
            k <= n,
            p as nat == pow10(k as nat),
        ensures
            p as nat == saturating_pow10(n as nat),
        decreases n - k,
    {
        if p > u128::MAX / 10 {
            proof {
                lemma_pow10_grows((k + 1) as nat, n as nat);
            }
            return u128::MAX;
        }
        p = p * 10;
        k += 1;
    }
    p
}

/// The number of binary digits of `n`.
fn bit_length_u128(n: u128) -> (r: usize)
    ensures
        r as nat == bit_length(n as nat),
        r <= 128,
{
    let mut x: u128 = n;
    let mut b: usize = 0;
    proof {
        vstd::arithmetic::power2::lemma2_to64();
        vstd::arithmetic::power2::lemma_pow2_adds(64, 64);
        lemma_bit_length_bound(n as nat, 128);
    }
    while x > 0
        invariant
            bit_length(n as nat) == b + bit_length(x as nat),
            b + bit_length(x as nat) <= 128,
        decreases x,
    {
        x = x / 2;
        b += 1;
    }
    b
}

/// `bit_length(n)` is at most 128 for a `u128`.
proof fn lemma_bit_length_bound(n: nat, k: nat)
    requires
        n < pow2(k),
    ensures
        bit_length(n) <= k,
    decreases k,
{
    vstd::arithmetic::power2::lemma_pow2_pos(k);
    if n > 0 {
        if k == 0 {
            assert(pow2(0) == 1) by {
                vstd::arithmetic::power2::lemma2_to64();
            }
        } else {
            vstd::arithmetic::power2::lemma_pow2_unfold(k);
            lemma_bit_length_bound(n / 2, (k - 1) as nat);
        }
    }
}

/// The maximum minus the minimum of two `i128` bounds, when the maximum is
/// larger; computed without overflow.
fn positive_span(lo: i128, hi: i128) -> (r: u128)
    requires
        lo < hi,
    ensures
        r as int == hi - lo,
{
    if lo >= 0 || hi < 0 {
        (hi - lo) as u128
    } else {
        (hi as u128) + ((-(lo + 1)) as u128) + 1
    }
}

/// The declared range of a numeric variable as `i128` bounds.
fn range_bounds(range: &Option<NumericRange>) -> (r: Option<(i128, i128)>)
    ensures
        match range_delta(*range) {
            Some(d) => r matches Some(b) && b.1 - b.0 == d && b.0 == bound_i128(
                range.unwrap().minimum.unwrap(),
            ),
            None => r is None,
        },
{
    match range {
        Some(r) => match (r.minimum, r.maximum) {
            (Some(lo), Some(hi)) => Some((trunc_to_i128(lo), trunc_to_i128(hi))),
            _ => None,
        },
        None => None,
    }
}

/// The bytes needed to hold the offsets of an integer column.
pub fn width_for_range(range: &Option<NumericRange>, ddi_width: u32) -> (w: usize)
    ensures
        w as nat == width_for_range_spec(*range, ddi_width),
        1 <= w <= 16,
{
    let span: u128 = match range_bounds(range) {
        Some((lo, hi)) => if lo < hi {
            positive_span(lo, hi)
        } else {
            1
        },
        None => saturating_pow10_u128(ddi_width).saturating_sub(1),
    };
    assert(span as nat == offset_value_span(*range, ddi_width));
    let digits = bit_length_u128(span);
    let bits = if digits < 1 {
        1
    } else {
        digits
    };
    (bits + 7) / 8
}

/// Whether the declared range needs more than `width` bytes.
pub open spec fn range_needs_more_than_spec(range: Option<NumericRange>, width: nat) -> bool {
    match range_delta(range) {
        None => false,
        Some(d) => {
            let span: nat = if d < 0 {
                0
            } else {
                d as nat
            };
            let bits = if width * 8 > usize::MAX {
                usize::MAX as nat
            } else {
                width * 8
            };
            bits < 128 && span >= pow2(bits)
        },
    }
}

/// Whether the declared range needs more than `width` bytes.
pub fn range_needs_more_than(range: &Option<NumericRange>, width: usize) -> (r: bool)
    ensures
        r == range_needs_more_than_spec(*range, width as nat),
{
    let (lo, hi) = match range_bounds(range) {
        Some(b) => b,
        None => return false,
    };
    let span: u128 = if lo < hi {
        positive_span(lo, hi)
    } else {
        0
    };
    let bits: usize = if width > usize::MAX / 8 {
        usize::MAX
    } else {
        width * 8
    };
    if bits >= 128 {
        return false;
    }
    proof {
        vstd::bits::lemma_u128_shr_is_div(span, bits as u128);
        vstd::arithmetic::power2::lemma_pow2_pos(bits as nat);
        if span as nat >= pow2(bits as nat) {
            vstd::arithmetic::div_mod::lemma_div_is_ordered(
                pow2(bits as nat) as int,
                span as int,
                pow2(bits as nat) as int,
            );
            vstd::arithmetic::div_mod::lemma_div_by_self(pow2(bits as nat) as int);
        } else {
            vstd::arithmetic::div_mod::lemma_basic_div(span as int, pow2(bits as nat) as int);
        }
    }
    (span >> (bits as u128)) > 0
}

/// The bytes per value of a column, or nothing when a fixed-width text
/// column declares no width.
pub open spec fn binary_width_spec(variable: VariableDefinition, slot: MetadataSlot) -> Option<nat> {
    match slot.encoding {
        MetadataEncoding::FixedAscii => if slot.char_width == 0 {
            None
        } else {
            Some(slot.char_width as nat)
        },
        MetadataEncoding::LittleEndianDouble => Some(8),
        MetadataEncoding::OffsetInteger => Some(
            width_for_range_spec(variable.range, variable.ddi_width),
        ),
    }
}

/// The bytes per value of the column that `slot` describes.
pub fn compute_binary_width(variable: &VariableDefinition, slot: &MetadataSlot) -> (r: Result<
    usize,
    MetadataLayoutError,
>)
    ensures
        match binary_width_spec(*variable, *slot) {
            Some(w) => r matches Ok(v) && v as nat == w,
            None => r == Err::<usize, MetadataLayoutError>(
                MetadataLayoutError::ZeroWidth { variable: variable.name },
            ),
        },
{
    match slot.encoding {
        MetadataEncoding::FixedAscii => {
            if slot.char_width == 0 {
                Err(MetadataLayoutError::ZeroWidth { variable: variable.name.clone() })
            } else {
                Ok(slot.char_width)
            }
        },
        MetadataEncoding::LittleEndianDouble => Ok(8),
        MetadataEncoding::OffsetInteger => Ok(width_for_range(&variable.range, variable.ddi_width)),
    }
}

/// Whether slot `j` is free and its name matches `name`: exactly, or by
/// `names_close_spec`.
pub open spec fn slot_matches_name(
    name: Seq<char>,
    slots: Seq<MetadataSlot>,
    used: Seq<bool>,
    exact: bool,
    j: int,
) -> bool {
    &&& !used[j]
    &&& if exact {
        slots[j].name@ == name
    } else {
        names_close_spec(name, slots[j].name@)
    }
}

/// The first free slot at or after `from` whose name matches `name`.
pub open spec fn first_free_slot(
    name: Seq<char>,
    slots: Seq<MetadataSlot>,
    used: Seq<bool>,
    exact: bool,
    from: int,
) -> Option<usize>
    decreases slots.len() - from,
{
    if from < 0 || from >= slots.len() {
        None
    } else if slot_matches_name(name, slots, used, exact, from) {
        Some(from as usize)
    } else {
        first_free_slot(name, slots, used, exact, from + 1)
    }
}

/// The slot a variable named `name` takes: the first free one with the same
/// name, else the first free one whose name is close.
pub open spec fn pick_slot(name: Seq<char>, slots: Seq<MetadataSlot>, used: Seq<bool>) -> Option<
    usize,
> {
    match first_free_slot(name, slots, used, true, 0) {
        Some(j) => Some(j),
        None => first_free_slot(name, slots, used, false, 0),
    }
}

/// The (variable, slot) pairs that the first `k` variables take in turn, and
/// which slots are taken.
pub open spec fn greedy_pairs(
    vars: Seq<VariableDefinition>,
    slots: Seq<MetadataSlot>,
    k: nat,
) -> (Seq<(usize, usize)>, Seq<bool>)
    decreases k,
{
    if k == 0 {
        (Seq::empty(), Seq::new(slots.len(), |j: int| false))
    } else {
        let (pairs, used) = greedy_pairs(vars, slots, (k - 1) as nat);
        match pick_slot(vars[k - 1].name@, slots, used) {
            Some(j) => (pairs.push(((k - 1) as usize, j)), used.update(j as int, true)),
            None => (pairs, used),
        }
    }
}

/// How DDI variables pair with slots: position by position when the counts
/// agree, greedily by name when they differ by at most five, else not at all.
pub open spec fn ddi_slot_pairs(vars: Seq<VariableDefinition>, slots: Seq<MetadataSlot>) -> Option<
    Seq<(usize, usize)>,
> {
    if vars.len() == slots.len() {
        Some(Seq::new(vars.len(), |i: int| (i as usize, i as usize)))
    } else if vars.len() - slots.len() <= 5 && slots.len() - vars.len() <= 5 {
        Some(greedy_pairs(vars, slots, vars.len()).0)
    } else {
        None
    }
}

/// The position of the first pair whose column width cannot be computed.
pub open spec fn first_width_failure(
    vars: Seq<VariableDefinition>,
    slots: Seq<MetadataSlot>,
    pairs: Seq<(usize, usize)>,
    n: nat,
) -> Option<int>
    decreases n,
{
    if n == 0 {
        None
    } else {
        match first_width_failure(vars, slots, pairs, (n - 1) as nat) {
            Some(k) => Some(k),
            None => if binary_width_spec(
                vars[pairs[n - 1].0 as int],
                slots[pairs[n - 1].1 as int],
            ) is None {
                Some(n - 1)
            } else {
                None
            },
        }
    }
}

/// The error of matching `vars` to `slots`, if any.
pub open spec fn match_error(vars: Seq<VariableDefinition>, slots: Seq<MetadataSlot>) -> Option<
    MetadataLayoutError,
> {
    match ddi_slot_pairs(vars, slots) {
        None => Some(
            MetadataLayoutError::IncompatibleSlotCount {
                ddi_count: vars.len() as usize,
                slot_count: slots.len() as usize,
            },
        ),
        Some(pairs) => match first_width_failure(vars, slots, pairs, pairs.len()) {
            Some(k) => Some(
                MetadataLayoutError::ZeroWidth { variable: vars[pairs[k].0 as int].name },
            ),
            None => if pairs.len() == 0 && vars.len() != slots.len() {
                Some(
                    MetadataLayoutError::NoNameOverlap {
                        ddi_count: vars.len() as usize,
                        slot_count: slots.len() as usize,
                    },
                )
            } else {
                None
            },
        },
    }
}

/// `column` pairs `variable` with `slot` at the slot's binary width.
pub open spec fn column_for(column: MetadataColumn, variable: VariableDefinition, slot: MetadataSlot) -> bool {
    &&& same_variable(column.variable, variable)
    &&& column.slot == slot
    &&& binary_width_spec(variable, slot) == Some(column.binary_width as nat)
}

/// The slot variable numbers of `pairs`, the key the columns are sorted by.
pub open spec fn pair_keys(slots: Seq<MetadataSlot>, pairs: Seq<(usize, usize)>) -> Seq<u64> {
    Seq::new(pairs.len(), |k: int| slots[pairs[k].1 as int].var_num as u64)
}

/// `columns` are the columns of `pairs`, stably sorted by slot variable number.
pub open spec fn columns_of_pairs(
    columns: Seq<MetadataColumn>,
    vars: Seq<VariableDefinition>,
    slots: Seq<MetadataSlot>,
    pairs: Seq<(usize, usize)>,
    order: Seq<usize>,
) -> bool {
    &&& is_stable_order(pair_keys(slots, pairs), order)
    &&& columns.len() == pairs.len()
    &&& forall|k: int|
        0 <= k < columns.len() ==> column_for(
            #[trigger] columns[k],
            vars[pairs[order[k] as int].0 as int],
            slots[pairs[order[k] as int].1 as int],
        )
}

/// `columns` are what matching `vars` to `slots` gives when it succeeds.
pub open spec fn matched_columns(
    vars: Seq<VariableDefinition>,
    slots: Seq<MetadataSlot>,
    columns: Seq<MetadataColumn>,
) -> bool {
    exists|order: Seq<usize>|
        columns_of_pairs(columns, vars, slots, ddi_slot_pairs(vars, slots).unwrap(), order)
}

/// The first free slot whose name matches `name`.
fn find_free_slot(
    name: &String,
    name_chars: &[char],
    slots: &Vec<MetadataSlot>,
    used: &Vec<bool>,
    exact: bool,
) -> (r: Option<usize>)
    requires
        name_chars@ == name@,
        used@.len() == slots@.len(),
    ensures
        r == first_free_slot(name@, slots@, used@, exact, 0),
{
    let mut j: usize = 0;
    while j < slots.len()
        invariant
            j <= slots@.len(),
            name_chars@ == name@,
            used@.len() == slots@.len(),
            first_free_slot(name@, slots@, used@, exact, 0) == first_free_slot(
                name@,
                slots@,
                used@,
                exact,
                j as int,
            ),
        decreases slots@.len() - j,
    {
        let hit = if exact {
            slots[j].name == *name
        } else {
            let slot_chars = chars_of(slots[j].name.as_str());
            names_close(name_chars, slot_chars.as_slice())
        };
        if !used[j] && hit {
            return Some(j);
        }
        j += 1;
    }
    None
}

/// Match DDI variables to slots, returning binary order (`var_num`). When the
/// counts agree the entries pair positionally; small count differences
/// instead use exact, then prefix, name matching.
pub fn match_ddi_to_slots(variables: &Vec<VariableDefinition>, slots: &Vec<MetadataSlot>) -> (r:
    Result<Vec<MetadataColumn>, MetadataLayoutError>)
    ensures
        match match_error(variables@, slots@) {
            Some(e) => r == Err::<Vec<MetadataColumn>, MetadataLayoutError>(e),
            None => r matches Ok(columns) && matched_columns(variables@, slots@, columns@),
        },
{
    let nv = variables.len();
    let ns = slots.len();
    let mut pairs: Vec<(usize, usize)> = Vec::new();
    if nv == ns {
        let mut i: usize = 0;
        while i < nv
            invariant
                i <= nv,
                nv == variables@.len(),
                pairs@ == Seq::new(i as nat, |k: int| (k as usize, k as usize)),
            decreases nv - i,
        {
            pairs.push((i, i));
            i += 1;
            proof {
                assert(pairs@ =~= Seq::new(i as nat, |k: int| (k as usize, k as usize)));
            }
        }
    } else if (nv < ns && ns - nv <= 5) || (ns < nv && nv - ns <= 5) {
        let mut used: Vec<bool> = Vec::new();
        let mut j: usize = 0;
        while j < ns
            invariant
                j <= ns,
                ns == slots@.len(),
                used@ == Seq::new(j as nat, |k: int| false),
            decreases ns - j,
        {
            used.push(false);
            j += 1;
            proof {
                assert(used@ =~= Seq::new(j as nat, |k: int| false));
            }
        }
        let mut i: usize = 0;
        while i < nv
            invariant
                i <= nv,
                nv == variables@.len(),
                ns == slots@.len(),
                (pairs@, used@) == greedy_pairs(variables@, slots@, i as nat),
                used@.len() == ns,
            decreases nv - i,
        {
            let name = &variables[i].name;
            let name_chars = chars_of(name.as_str());
            let exact = find_free_slot(name, name_chars.as_slice(), slots, &used, true);
            let pick = match exact {
                Some(j) => Some(j),
                None => find_free_slot(name, name_chars.as_slice(), slots, &used, false),
            };
            if let Some(j) = pick {
                proof {
                    reveal_with_fuel(first_free_slot, 1);
                }
                assert(j < ns) by {
                    lemma_first_free_slot_bound(name@, slots@, used@, exact is Some, 0);
                }
                used.set(j, true);
                pairs.push((i, j));
            }
            i += 1;
        }
        proof {
            lemma_greedy_pairs_bounds(variables@, slots@, nv as nat);
        }
    } else {
        return Err(MetadataLayoutError::IncompatibleSlotCount { ddi_count: nv, slot_count: ns });
    }
    let ghost all_pairs = pairs@;
    assert(ddi_slot_pairs(variables@, slots@) == Some(all_pairs));
    assert forall|m: int| 0 <= m < pairs@.len() implies (#[trigger] pairs@[m]).0 < variables@.len()
        && pairs@[m].1 < slots@.len() by {
        if nv != ns {
            lemma_greedy_pairs_bounds(variables@, slots@, nv as nat);
        }
    }
    // Widths, in pairing order, so that the first failing pair is reported.
    let mut widths: Vec<usize> = Vec::new();
    let mut keys: Vec<u64> = Vec::new();
    let mut k: usize = 0;
    while k < pairs.len()
        invariant
            k <= pairs@.len(),
            all_pairs == pairs@,
            nv == variables@.len(),
            ns == slots@.len(),
            ddi_slot_pairs(variables@, slots@) == Some(all_pairs),
            forall|m: int|
                0 <= m < pairs@.len() ==> (#[trigger] pairs@[m]).0 < variables@.len()
                    && pairs@[m].1 < slots@.len(),
            first_width_failure(variables@, slots@, all_pairs, k as nat) is None,
            widths@.len() == k,
            keys@ == pair_keys(slots@, all_pairs).take(k as int),
            forall|m: int|
                0 <= m < k ==> binary_width_spec(
                    variables@[all_pairs[m].0 as int],
                    slots@[all_pairs[m].1 as int],
                ) == Some(#[trigger] widths@[m] as nat),
        decreases pairs@.len() - k,
    {
        let (vi, si) = pairs[k];
        proof {
            lemma_first_width_failure_at(variables@, slots@, all_pairs, k as nat, all_pairs.len());
        }
        let w = match compute_binary_width(&variables[vi], &slots[si]) {
            Ok(w) => w,
            Err(e) => {
                return Err(e);
            },
        };
        let ghost before = widths@;
        widths.push(w);
        proof {
            assert(widths@[k as int] == w);
            assert forall|m: int| 0 <= m < k + 1 implies binary_width_spec(
                variables@[all_pairs[m].0 as int],
                slots@[all_pairs[m].1 as int],
            ) == Some(#[trigger] widths@[m] as nat) by {
                if m < k {
                    assert(widths@[m] == before[m]);
                }
            }
        }
        keys.push(slots[si].var_num as u64);
        k += 1;
        proof {
            assert(keys@ =~= pair_keys(slots@, all_pairs).take(k as int));
        }
    }
    if pairs.len() == 0 && nv != ns {
        return Err(MetadataLayoutError::NoNameOverlap { ddi_count: nv, slot_count: ns });
    }
    proof {
        assert(keys@ =~= pair_keys(slots@, all_pairs));
    }
    let order = stable_order(&keys);
    let mut columns: Vec<MetadataColumn> = Vec::new();
    let mut m: usize = 0;
    while m < order.len()
        invariant
            m <= order@.len(),
            is_stable_order(pair_keys(slots@, all_pairs), order@),
            all_pairs == pairs@,
            ddi_slot_pairs(variables@, slots@) == Some(all_pairs),
            first_width_failure(variables@, slots@, all_pairs, all_pairs.len()) is None,
            !(all_pairs.len() == 0 && variables@.len() != slots@.len()),
            widths@.len() == pairs@.len(),
            forall|q: int|
                0 <= q < pairs@.len() ==> (#[trigger] pairs@[q]).0 < variables@.len()
                    && pairs@[q].1 < slots@.len(),
            forall|q: int|
                0 <= q < pairs@.len() ==> binary_width_spec(
                    variables@[all_pairs[q].0 as int],
                    slots@[all_pairs[q].1 as int],
                ) == Some(#[trigger] widths@[q] as nat),
            columns@.len() == m,
            forall|q: int|
                0 <= q < m ==> column_for(
                    #[trigger] columns@[q],
                    variables@[all_pairs[order@[q] as int].0 as int],
                    slots@[all_pairs[order@[q] as int].1 as int],
                ),
        decreases order@.len() - m,
    {
        let p = order[m];
        let (vi, si) = pairs[p];
        columns.push(
            MetadataColumn {
                variable: variables[vi].clone(),
                slot: slots[si].clone(),
                binary_width: widths[p],
            },
        );
        m += 1;
    }
    proof {
        assert(match_error(variables@, slots@) is None);
        assert(ddi_slot_pairs(variables@, slots@).unwrap() == all_pairs);
        assert(columns_of_pairs(
            columns@,
            variables@,
            slots@,
            ddi_slot_pairs(variables@, slots@).unwrap(),
            order@,
        ));
        assert(matched_columns(variables@, slots@, columns@));
    }
    Ok(columns)
}

proof fn lemma_first_width_failure_at(
    vars: Seq<VariableDefinition>,
    slots: Seq<MetadataSlot>,
    pairs: Seq<(usize, usize)>,
    k: nat,
    n: nat,
)
    requires
        first_width_failure(vars, slots, pairs, k) is None,
        k < n,
    ensures
        binary_width_spec(vars[pairs[k as int].0 as int], slots[pairs[k as int].1 as int]) is None
            ==> first_width_failure(vars, slots, pairs, n) == Some(k as int),
    decreases n,
{
    if n > k + 1 {
        lemma_first_width_failure_at(vars, slots, pairs, k, (n - 1) as nat);
    }
}

proof fn lemma_first_free_slot_bound(
    name: Seq<char>,
    slots: Seq<MetadataSlot>,
    used: Seq<bool>,
    exact: bool,
    from: int,
)
    ensures
        first_free_slot(name, slots, used, exact, from) matches Some(j) ==> j < slots.len(),
    decreases slots.len() - from,
{
    if 0 <= from < slots.len() {
        lemma_first_free_slot_bound(name, slots, used, exact, from + 1);
    }
}

proof fn lemma_greedy_pairs_bounds(vars: Seq<VariableDefinition>, slots: Seq<MetadataSlot>, k: nat)
    requires
        k <= vars.len(),
    ensures
        greedy_pairs(vars, slots, k).1.len() == slots.len(),
        forall|m: int|
            0 <= m < greedy_pairs(vars, slots, k).0.len() ==> (#[trigger] greedy_pairs(
                vars,
                slots,
                k,
            ).0[m]).0 < vars.len() && greedy_pairs(vars, slots, k).0[m].1 < slots.len(),
    decreases k,
{
    if k > 0 {
        lemma_greedy_pairs_bounds(vars, slots, (k - 1) as nat);
        let (pairs, used) = greedy_pairs(vars, slots, (k - 1) as nat);
        lemma_first_free_slot_bound(vars[k - 1].name@, slots, used, true, 0);
        lemma_first_free_slot_bound(vars[k - 1].name@, slots, used, false, 0);
    }
}

/// An offset-integer column never needs more than sixteen bytes.
proof fn lemma_width_for_range_bound(range: Option<NumericRange>, ddi_width: u32)
    ensures
        1 <= width_for_range_spec(range, ddi_width) <= 16,
{
    let span = offset_value_span(range, ddi_width);
    assert(span <= u128::MAX);
    vstd::arithmetic::power2::lemma2_to64();
    vstd::arithmetic::power2::lemma_pow2_adds(64, 64);
    lemma_bit_length_bound(span, 128);
}

/// The binary widths of `columns`.
pub open spec fn widths_of(columns: Seq<MetadataColumn>) -> Seq<nat> {
    Seq::new(columns.len(), |i: int| columns[i].binary_width as nat)
}

/// The payload bytes of the first `n` columns of `rows` rows, or the first
/// overflow.
pub open spec fn payload_total(widths: Seq<nat>, rows: nat, n: nat) -> Result<nat, MetadataLayoutError>
    decreases n,
{
    if n == 0 {
        Ok(0)
    } else {
        match payload_total(widths, rows, (n - 1) as nat) {
            Err(e) => Err(e),
            Ok(total) => {
                let bytes = widths[n - 1] * rows;
                if bytes > usize::MAX {
                    Err(MetadataLayoutError::OffsetOverflow { context: "column payload size" })
                } else if total + bytes > usize::MAX {
                    Err(MetadataLayoutError::OffsetOverflow { context: "metadata payload size" })
                } else {
                    Ok(total + bytes)
                }
            },
        }
    }
}

/// The payload bytes of all columns of `rows` rows, or the first overflow.
fn total_payload_bytes(widths: &Vec<usize>, row_count: usize) -> (r: Result<usize, MetadataLayoutError>)
    ensures
        match payload_total(widths@.map_values(|w: usize| w as nat), row_count as nat, widths@.len()) {
            Ok(t) => r == Ok::<usize, MetadataLayoutError>(t as usize),
            Err(e) => r == Err::<usize, MetadataLayoutError>(e),
        },
{
    let ghost ws = widths@.map_values(|w: usize| w as nat);
    let mut total: usize = 0;
    let mut i: usize = 0;
    while i < widths.len()
        invariant
            i <= widths@.len(),
            ws == widths@.map_values(|w: usize| w as nat),
            payload_total(ws, row_count as nat, i as nat) == Ok::<nat, MetadataLayoutError>(
                total as nat,
            ),
        decreases widths@.len() - i,
    {
        proof {
            lemma_payload_total_first_error(ws, row_count as nat, i as nat, widths@.len());
        }
        let w = widths[i];
        let bytes = match w.checked_mul(row_count) {
            Some(b) => b,
            None => return Err(
                MetadataLayoutError::OffsetOverflow { context: "column payload size" },
            ),
        };
        total = match total.checked_add(bytes) {
            Some(t) => t,
            None => return Err(
                MetadataLayoutError::OffsetOverflow { context: "metadata payload size" },
            ),
        };
        i += 1;
    }
    Ok(total)
}

proof fn lemma_payload_total_first_error(widths: Seq<nat>, rows: nat, i: nat, n: nat)
    requires
        payload_total(widths, rows, i) is Ok,
        i < n,
    ensures
        payload_total(widths, rows, (i + 1) as nat) is Err ==> payload_total(widths, rows, n)
            == payload_total(widths, rows, (i + 1) as nat),
    decreases n,
{
    if n > i + 1 {
        lemma_payload_total_first_error(widths, rows, i, (n - 1) as nat);
    }
}

/// An offset-integer column whose width could still shrink.
pub open spec fn is_reduction_candidate(column: MetadataColumn) -> bool {
    column.slot.encoding == MetadataEncoding::OffsetInteger && column.binary_width > 1
}

/// The positions among the first `n` columns whose width may be reduced, in
/// column order.
pub open spec fn candidate_positions_upto(columns: Seq<MetadataColumn>, n: nat) -> Seq<usize>
    decreases n,
{
    if n == 0 {
        Seq::empty()
    } else {
        let earlier = candidate_positions_upto(columns, (n - 1) as nat);
        if is_reduction_candidate(columns[n - 1]) {
            earlier.push((n - 1) as usize)
        } else {
            earlier
        }
    }
}

/// The positions of the columns whose width may be reduced, in column order.
pub open spec fn candidate_positions(columns: Seq<MetadataColumn>) -> Seq<usize> {
    candidate_positions_upto(columns, columns.len())
}

proof fn lemma_candidate_positions(columns: Seq<MetadataColumn>, n: nat)
    requires
        n <= columns.len() <= usize::MAX,
    ensures
        forall|k: int|
            0 <= k < candidate_positions_upto(columns, n).len() ==> (#[trigger] candidate_positions_upto(
                columns,
                n,
            )[k]) < n && is_reduction_candidate(
                columns[candidate_positions_upto(columns, n)[k] as int],
            ),
        forall|k: int, l: int|
            0 <= k < l < candidate_positions_upto(columns, n).len() ==> (#[trigger] candidate_positions_upto(
                columns,
                n,
            )[k]) < (#[trigger] candidate_positions_upto(columns, n)[l]),
    decreases n,
{
    if n > 0 {
        lemma_candidate_positions(columns, (n - 1) as nat);
        let earlier = candidate_positions_upto(columns, (n - 1) as nat);
        let current = candidate_positions_upto(columns, n);
        if is_reduction_candidate(columns[n - 1]) {
            assert(current == earlier.push((n - 1) as usize));
            assert forall|k: int| 0 <= k < current.len() implies (#[trigger] current[k]) < n
                && is_reduction_candidate(columns[current[k] as int]) by {
                if k < earlier.len() {
                    assert(current[k] == earlier[k]);
                }
            }
            assert forall|k: int, l: int| 0 <= k < l < current.len() implies (#[trigger] current[k])
                < (#[trigger] current[l]) by {
                assert(current[k] == earlier[k]);
                if l < earlier.len() {
                    assert(current[l] == earlier[l]);
                }
            }
        }
    }
}

/// The sort key of the candidates: wider columns first.
pub open spec fn candidate_keys(columns: Seq<MetadataColumn>) -> Seq<u64> {
    let positions = candidate_positions(columns);
    Seq::new(positions.len(), |k: int| (16 - columns[positions[k] as int].binary_width) as u64)
}

/// The candidates in the order they are tried: by descending width, ties in
/// column order.
pub open spec fn reduction_sequence(columns: Seq<MetadataColumn>, order: Seq<usize>) -> Seq<usize> {
    Seq::new(order.len(), |k: int| candidate_positions(columns)[order[k] as int])
}

/// The payload leaves the eight header bytes in front of the metadata table.
pub open spec fn payload_fits(metadata_offset: nat, payload: nat) -> bool {
    payload + 8 <= metadata_offset
}

/// The widths after trying the first `t` candidates of `sequence`: a
/// candidate loses one byte unless the payload already fits or its declared
/// range needs the byte.
pub open spec fn reduce_run(
    metadata_offset: nat,
    rows: nat,
    columns: Seq<MetadataColumn>,
    sequence: Seq<usize>,
    t: nat,
) -> Result<Seq<nat>, MetadataLayoutError>
    decreases t,
{
    let n = columns.len();
    if t == 0 {
        match payload_total(widths_of(columns), rows, n) {
            Err(e) => Err(e),
            Ok(_) => Ok(widths_of(columns)),
        }
    } else {
        match reduce_run(metadata_offset, rows, columns, sequence, (t - 1) as nat) {
            Err(e) => Err(e),
            Ok(widths) => {
                let payload = payload_total(widths, rows, n).unwrap();
                let i = sequence[t - 1] as int;
                if payload_fits(metadata_offset, payload) {
                    Ok(widths)
                } else if range_needs_more_than_spec(
                    columns[i].variable.range,
                    (widths[i] - 1) as nat,
                ) {
                    Ok(widths)
                } else {
                    let reduced = widths.update(i, (widths[i] - 1) as nat);
                    match payload_total(reduced, rows, n) {
                        Err(e) => Err(e),
                        Ok(_) => Ok(reduced),
                    }
                }
            },
        }
    }
}

/// The outcome of the width reduction: the final widths and the payload
/// start, or an error (`None` standing for the payload not fitting in front
/// of the table).
pub open spec fn reduce_outcome(
    metadata_offset: nat,
    row_count: u64,
    columns: Seq<MetadataColumn>,
    sequence: Seq<usize>,
) -> Result<(Seq<nat>, nat), Option<MetadataLayoutError>> {
    if row_count > usize::MAX {
        Err(Some(MetadataLayoutError::OffsetOverflow { context: "row count" }))
    } else {
        match reduce_run(metadata_offset, row_count as nat, columns, sequence, sequence.len()) {
            Err(e) => Err(Some(e)),
            Ok(widths) => {
                let payload = payload_total(widths, row_count as nat, columns.len()).unwrap();
                if payload_fits(metadata_offset, payload) {
                    Ok((widths, (metadata_offset - payload) as nat))
                } else {
                    Err(None)
                }
            },
        }
    }
}

/// What the width reduction returns for `columns`.
pub open spec fn reduction_result(
    metadata_offset: nat,
    row_count: u64,
    columns: Seq<MetadataColumn>,
    r: Result<(usize, Vec<usize>), MetadataLayoutError>,
) -> bool {
    exists|order: Seq<usize>|
        #![trigger reduction_sequence(columns, order)]
        is_stable_order(candidate_keys(columns), order) && match reduce_outcome(
            metadata_offset,
            row_count,
            columns,
            reduction_sequence(columns, order),
        ) {
            Err(Some(e)) => r == Err::<(usize, Vec<usize>), MetadataLayoutError>(e),
            Err(None) => r matches Err(MetadataLayoutError::PayloadOutOfBounds { variable }) && variable@
                == "metadata layout"@,
            Ok((widths, data_offset)) => r matches Ok((d, w)) && d == data_offset && w@.map_values(
                |x: usize| x as nat,
            ) == widths,
        }
}

/// Shrink offset-integer columns, widest first, until the payload fits in
/// front of the metadata table, never below what a declared range needs.
/// Returns the payload start and the new widths.
fn cautiously_reduce_widths(
    metadata_offset: usize,
    row_count: u64,
    columns: &Vec<MetadataColumn>,
) -> (r: Result<(usize, Vec<usize>), MetadataLayoutError>)
    requires
        forall|i: int|
            0 <= i < columns@.len() && (#[trigger] columns@[i]).slot.encoding
                == MetadataEncoding::OffsetInteger ==> columns@[i].binary_width <= 16,
    ensures
        reduction_result(metadata_offset as nat, row_count, columns@, r),
        r matches Ok((d, w)) ==> w@.len() == columns@.len(),
{
    let ghost cols = columns@;
    let ghost mo = metadata_offset as nat;
    // The candidate positions, in column order.
    let mut positions: Vec<usize> = Vec::new();
    let mut keys: Vec<u64> = Vec::new();
    let mut widths: Vec<usize> = Vec::new();
    let mut i: usize = 0;
    while i < columns.len()
        invariant
            i <= cols.len(),
            cols == columns@,
            forall|q: int|
                0 <= q < cols.len() && (#[trigger] cols[q]).slot.encoding
                    == MetadataEncoding::OffsetInteger ==> cols[q].binary_width <= 16,
            positions@ == candidate_positions_upto(cols, i as nat),
            keys@.len() == positions@.len(),
            forall|k: int|
                0 <= k < keys@.len() ==> #[trigger] keys@[k] == (16 - cols[positions@[k] as int].binary_width) as u64,
            widths@ == widths_of(cols).take(i as int).map_values(|w: nat| w as usize),
        decreases cols.len() - i,
    {
        let c = &columns[i];
        let candidate = match c.slot.encoding {
            MetadataEncoding::OffsetInteger => c.binary_width > 1,
            _ => false,
        };
        let ghost old_keys = keys@;
        if candidate {
            positions.push(i);
            keys.push((16 - c.binary_width) as u64);
        }
        proof {
            assert forall|k: int| 0 <= k < keys@.len() implies #[trigger] keys@[k] == (16
                - cols[positions@[k] as int].binary_width) as u64 by {
                if k < old_keys.len() {
                    assert(keys@[k] == old_keys[k]);
                }
            }
        }
        widths.push(c.binary_width);
        i += 1;
        proof {
            assert(widths@ =~= widths_of(cols).take(i as int).map_values(|w: nat| w as usize));
        }
    }
    proof {
        assert(keys@ =~= candidate_keys(cols));
        lemma_candidate_positions(cols, cols.len());
    }
    let order = stable_order(&keys);
    let ghost sequence = reduction_sequence(cols, order@);
    proof {
        assert(widths@.map_values(|w: usize| w as nat) =~= widths_of(cols));
        lemma_sequence_distinct(cols, order@);
    }
    if row_count > usize::MAX as u64 {
        let r = Err(MetadataLayoutError::OffsetOverflow { context: "row count" });
        assert(reduction_result(mo, row_count, cols, r));
        return r;
    }
    let ghost rows = row_count as nat;
    let rows_usize = row_count as usize;
    let mut payload = match total_payload_bytes(&widths, rows_usize) {
        Ok(p) => p,
        Err(e) => {
            let r = Err(e);
            proof {
                lemma_reduce_run_err_sticks(mo, rows, cols, sequence, 0, sequence.len());
            }
            assert(reduction_result(mo, rows as u64, cols, r));
            return r;
        },
    };
    let mut t: usize = 0;
    while t < order.len()
        invariant
            t <= order@.len(),
            cols == columns@,
            is_stable_order(candidate_keys(cols), order@),
            sequence == reduction_sequence(cols, order@),
            positions@ == candidate_positions(cols),
            widths@.len() == cols.len(),
            reduce_run(mo, row_count as nat, cols, sequence, t as nat) == Ok::<
                Seq<nat>,
                MetadataLayoutError,
            >(widths@.map_values(|w: usize| w as nat)),
            payload_total(widths@.map_values(|w: usize| w as nat), row_count as nat, cols.len())
                == Ok::<nat, MetadataLayoutError>(payload as nat),
            mo == metadata_offset,
            rows == row_count as nat,
            rows == rows_usize,
            sequence.len() == order@.len(),
            forall|k: int| 0 <= k < sequence.len() ==> #[trigger] sequence[k] < cols.len(),
            forall|k: int, l: int|
                0 <= k < l < sequence.len() ==> #[trigger] sequence[k] != #[trigger] sequence[l],
            forall|k: int|
                t <= k < sequence.len() ==> widths@[#[trigger] sequence[k] as int]
                    == cols[sequence[k] as int].binary_width && cols[sequence[k] as int].binary_width > 1,
        ensures
            reduce_run(mo, rows, cols, sequence, sequence.len()) == Ok::<
                Seq<nat>,
                MetadataLayoutError,
            >(widths@.map_values(|w: usize| w as nat)),
            payload_total(widths@.map_values(|w: usize| w as nat), rows, cols.len())
                == Ok::<nat, MetadataLayoutError>(payload as nat),
        decreases order@.len() - t,
    {
        let ghost ws = widths@.map_values(|w: usize| w as nat);
        if metadata_offset >= payload && metadata_offset - payload >= 8 {
            proof {
                lemma_reduce_run_settled(mo, rows, cols, sequence, t as nat, sequence.len());
            }
            break;
        }
        let index = positions[order[t]];
        assert(index == sequence[t as int]);
        let proposed = widths[index] - 1;
        if !range_needs_more_than(&columns[index].variable.range, proposed) {
            widths.set(index, proposed);
            proof {
                assert(widths@.map_values(|w: usize| w as nat) =~= ws.update(index as int, proposed as nat));
            }
            payload = match total_payload_bytes(&widths, rows_usize) {
                Ok(p) => p,
                Err(e) => {
                    let r = Err(e);
                    proof {
                        assert(reduce_run(mo, rows, cols, sequence, (t + 1) as nat) == Err::<
                            Seq<nat>,
                            MetadataLayoutError,
                        >(e));
                        lemma_reduce_run_err_sticks(
                            mo,
                            rows,
                            cols,
                            sequence,
                            (t + 1) as nat,
                            sequence.len(),
                        );
                    }
                    assert(reduction_result(mo, rows as u64, cols, r));
                    return r;
                },
            };
        }
        t += 1;
    }
    if metadata_offset < payload || metadata_offset - payload < 8 {
        let r = Err(MetadataLayoutError::PayloadOutOfBounds { variable: "metadata layout".to_owned() });
        assert(reduction_result(mo, rows as u64, cols, r));
        return r;
    }
    let r = Ok((metadata_offset - payload, widths));
    assert(reduction_result(mo, rows as u64, cols, r));
    r
}

proof fn lemma_sequence_distinct(columns: Seq<MetadataColumn>, order: Seq<usize>)
    requires
        is_stable_order(candidate_keys(columns), order),
        forall|k: int, l: int|
            0 <= k < l < candidate_positions(columns).len() ==> (#[trigger] candidate_positions(
                columns,
            )[k]) < (#[trigger] candidate_positions(columns)[l]),
    ensures
        forall|k: int, l: int|
            0 <= k < l < reduction_sequence(columns, order).len() ==> #[trigger] reduction_sequence(
                columns,
                order,
            )[k] != #[trigger] reduction_sequence(columns, order)[l],
{
    let positions = candidate_positions(columns);
    let keys = candidate_keys(columns);
    assert forall|k: int, l: int|
        0 <= k < l < reduction_sequence(columns, order).len() implies #[trigger] reduction_sequence(
        columns,
        order,
    )[k] != #[trigger] reduction_sequence(columns, order)[l] by {
        let a = order[k] as int;
        let b = order[l] as int;
        assert(crate::order::key_before(keys, a, b));
        assert(a != b);
        if a < b {
            assert(positions[a] < positions[b]);
        } else {
            assert(positions[b] < positions[a]);
        }
    }
}

proof fn lemma_reduce_run_err_sticks(
    metadata_offset: nat,
    rows: nat,
    columns: Seq<MetadataColumn>,
    sequence: Seq<usize>,
    t: nat,
    n: nat,
)
    requires
        t <= n,
        reduce_run(metadata_offset, rows, columns, sequence, t) is Err,
    ensures
        reduce_run(metadata_offset, rows, columns, sequence, n) == reduce_run(
            metadata_offset,
            rows,
            columns,
            sequence,
            t,
        ),
    decreases n,
{
    if n > t {
        lemma_reduce_run_err_sticks(metadata_offset, rows, columns, sequence, t, (n - 1) as nat);
    }
}

proof fn lemma_reduce_run_settled(
    metadata_offset: nat,
    rows: nat,
    columns: Seq<MetadataColumn>,
    sequence: Seq<usize>,
    t: nat,
    n: nat,
)
    requires
        t <= n,
        reduce_run(metadata_offset, rows, columns, sequence, t) matches Ok(widths)
            && payload_total(widths, rows, columns.len()) matches Ok(p) && payload_fits(
            metadata_offset,
            p,
        ),
    ensures
        reduce_run(metadata_offset, rows, columns, sequence, n) == reduce_run(
            metadata_offset,
            rows,
            columns,
            sequence,
            t,
        ),
    decreases n,
{
    if n > t {
        lemma_reduce_run_settled(metadata_offset, rows, columns, sequence, t, (n - 1) as nat);
    }
}

/// The number of adjacent well-formed slots from slot `i` on, stopping at
/// `max_slots`.
pub open spec fn valid_slot_run(data: Seq<u8>, metadata_offset: int, i: nat, max_slots: nat) -> nat
    decreases max_slots - i,
{
    if i >= max_slots || !slot_valid(data, metadata_offset, i as int) {
        i
    } else {
        valid_slot_run(data, metadata_offset, i + 1, max_slots)
    }
}

proof fn lemma_valid_slot_run(data: Seq<u8>, metadata_offset: int, i: nat, n: nat, max_slots: nat)
    requires
        i <= n <= max_slots,
        forall|k: int| i <= k < n ==> slot_valid(data, metadata_offset, k),
        n < max_slots ==> !slot_valid(data, metadata_offset, n as int),
    ensures
        valid_slot_run(data, metadata_offset, i, max_slots) == n,
    decreases n - i,
{
    if i < n {
        lemma_valid_slot_run(data, metadata_offset, i + 1, n, max_slots);
    }
}

/// `slots` are the first `n` slots of the table at `metadata_offset`.
pub open spec fn table_slots(data: Seq<u8>, metadata_offset: int, n: nat, slots: Seq<MetadataSlot>) -> bool {
    &&& slots.len() == n
    &&& forall|i: int| 0 <= i < n ==> slot_read(#[trigger] slots[i], data, metadata_offset, i)
}

/// The first column, in binary order, whose payload size overflows or is
/// empty.
pub open spec fn first_column_problem(
    columns: Seq<MetadataColumn>,
    widths: Seq<usize>,
    rows: nat,
    n: nat,
) -> Option<MetadataLayoutError>
    decreases n,
{
    if n == 0 {
        None
    } else {
        match first_column_problem(columns, widths, rows, (n - 1) as nat) {
            Some(e) => Some(e),
            None => {
                let bytes = widths[n - 1] * rows;
                if bytes > usize::MAX {
                    Some(MetadataLayoutError::OffsetOverflow { context: "column payload size" })
                } else if bytes == 0 {
                    Some(
                        MetadataLayoutError::PayloadOutOfBounds {
                            variable: columns[n - 1].variable.name,
                        },
                    )
                } else {
                    None
                }
            },
        }
    }
}

/// The layout is `columns` with the reduced `widths`, the payload starting at
/// `data_offset` and the table at `metadata_offset`.
pub open spec fn layout_with_widths(
    layout: MetadataLayout,
    metadata_offset: nat,
    data_offset: nat,
    columns: Seq<MetadataColumn>,
    widths: Seq<usize>,
) -> bool {
    &&& layout.metadata_offset == metadata_offset
    &&& layout.data_offset == data_offset
    &&& layout.columns@.len() == columns.len()
    &&& forall|k: int|
        0 <= k < columns.len() ==> {
            &&& same_variable((#[trigger] layout.columns@[k]).variable, columns[k].variable)
            &&& layout.columns@[k].slot == columns[k].slot
            &&& layout.columns@[k].binary_width == widths[k]
        }
}

/// What building the layout returns once the widths are reduced (`reduced`
/// being the reduction's own result).
pub open spec fn finish_outcome(
    data: Seq<u8>,
    row_count: u64,
    metadata_offset: nat,
    columns: Seq<MetadataColumn>,
    reduced: Result<(usize, Vec<usize>), MetadataLayoutError>,
    r: Result<MetadataLayout, MetadataLayoutError>,
) -> bool {
    match reduced {
        Err(e) => r == Err::<MetadataLayout, MetadataLayoutError>(e),
        Ok((data_offset, widths)) => match first_column_problem(
            columns,
            widths@,
            row_count as nat,
            columns.len(),
        ) {
            Some(e) => r == Err::<MetadataLayout, MetadataLayoutError>(e),
            None => match range_error(
                data.len(),
                data_offset as int,
                metadata_offset - data_offset,
                "metadata payload",
            ) {
                Some(e) => r == Err::<MetadataLayout, MetadataLayoutError>(e),
                None => r matches Ok(layout) && layout_with_widths(
                    layout,
                    metadata_offset,
                    data_offset as nat,
                    columns,
                    widths@,
                ),
            },
        },
    }
}

/// The number of slots that building reads: the well-formed slots of the
/// table, but no more than the DDI has variables.
pub open spec fn slots_to_read(data: Seq<u8>, block: BlockDefinition, metadata_offset: nat) -> nat {
    let actual = valid_slot_run(data, metadata_offset as int, 0, DEFAULT_MAX_SLOTS as nat);
    if actual >= block.variables@.len() {
        block.variables@.len()
    } else {
        actual
    }
}

/// `slots`, `columns` and `reduced` are the steps by which building the layout
/// of `block` from the table at `metadata_offset` reaches `r`.
pub open spec fn layout_steps(
    data: Seq<u8>,
    block: BlockDefinition,
    metadata_offset: nat,
    slots: Seq<MetadataSlot>,
    columns: Seq<MetadataColumn>,
    reduced: Result<(usize, Vec<usize>), MetadataLayoutError>,
    r: Result<MetadataLayout, MetadataLayoutError>,
) -> bool {
    let vars = block.variables@;
    &&& table_slots(data, metadata_offset as int, slots_to_read(data, block, metadata_offset), slots)
    &&& match match_error(vars, slots) {
        Some(e) => r == Err::<MetadataLayout, MetadataLayoutError>(e),
        None => {
            &&& matched_columns(vars, slots, columns)
            &&& reduction_result(metadata_offset, block.row_count, columns, reduced)
            &&& finish_outcome(data, block.row_count, metadata_offset, columns, reduced, r)
        },
    }
}

/// What building the layout of `block` from the table at `metadata_offset`
/// returns: the slots that the table holds (up to the number of DDI
/// variables) are matched to the variables, the widths reduced until the
/// payload fits in front of the table, and the payload checked.
pub open spec fn layout_outcome(
    data: Seq<u8>,
    block: BlockDefinition,
    metadata_offset: nat,
    r: Result<MetadataLayout, MetadataLayoutError>,
) -> bool {
    if block.variables@.len() == 0 {
        r == Err::<MetadataLayout, MetadataLayoutError>(
            MetadataLayoutError::EmptyBlock { block_id: block.file_id },
        )
    } else {
        exists|
            slots: Seq<MetadataSlot>,
            columns: Seq<MetadataColumn>,
            reduced: Result<(usize, Vec<usize>), MetadataLayoutError>,
        | #[trigger] layout_steps(data, block, metadata_offset, slots, columns, reduced, r)
    }
}

proof fn lemma_valid_slots_read(data: Seq<u8>, metadata_offset: int, n: nat)
    requires
        data.len() <= usize::MAX,
        forall|k: int| 0 <= k < n ==> slot_valid(data, metadata_offset, k),
    ensures
        slots_read_error(data.len(), metadata_offset, n) is None,
    decreases n,
{
    if n > 0 {
        lemma_valid_slots_read(data, metadata_offset, (n - 1) as nat);
        assert(slot_valid(data, metadata_offset, n - 1));
    }
}

proof fn lemma_column_problem_first(
    columns: Seq<MetadataColumn>,
    widths: Seq<usize>,
    rows: nat,
    k: nat,
    n: nat,
)
    requires
        first_column_problem(columns, widths, rows, k) is None,
        k < n,
    ensures
        first_column_problem(columns, widths, rows, (k + 1) as nat) is Some ==> first_column_problem(
            columns,
            widths,
            rows,
            n,
        ) == first_column_problem(columns, widths, rows, (k + 1) as nat),
    decreases n,
{
    if n > k + 1 {
        lemma_column_problem_first(columns, widths, rows, k, (n - 1) as nat);
    }
}

/// Matched columns keep offset-integer widths within sixteen bytes.
proof fn lemma_matched_widths(
    vars: Seq<VariableDefinition>,
    slots: Seq<MetadataSlot>,
    columns: Seq<MetadataColumn>,
)
    requires
        matched_columns(vars, slots, columns),
    ensures
        forall|i: int|
            0 <= i < columns.len() && (#[trigger] columns[i]).slot.encoding
                == MetadataEncoding::OffsetInteger ==> columns[i].binary_width <= 16,
{
    let order = choose|order: Seq<usize>|
        columns_of_pairs(columns, vars, slots, ddi_slot_pairs(vars, slots).unwrap(), order);
    assert forall|i: int|
        0 <= i < columns.len() && (#[trigger] columns[i]).slot.encoding
            == MetadataEncoding::OffsetInteger implies columns[i].binary_width <= 16 by {
        let c = columns[i];
        assert(binary_width_spec(c.variable, c.slot) == Some(c.binary_width as nat)) by {
            let pairs = ddi_slot_pairs(vars, slots).unwrap();
            assert(column_for(c, vars[pairs[order[i] as int].0 as int], slots[pairs[order[i] as int].1 as int]));
        }
        lemma_width_for_range_bound(c.variable.range, c.variable.ddi_width);
    }
}

/// Build and validate the layout for a known metadata offset.
pub fn build_metadata_layout(data: &[u8], block: &BlockDefinition, metadata_offset: usize) -> (r:
    Result<MetadataLayout, MetadataLayoutError>)
    ensures
        layout_outcome(data@, *block, metadata_offset as nat, r),
{
    if block.variables.len() == 0 {
        return Err(MetadataLayoutError::EmptyBlock { block_id: block.file_id.clone() });
    }
    let _len = data.len();
    let ghost mo = metadata_offset as nat;
    let ghost vars = block.variables@;
    let actual = count_metadata_slots(data, metadata_offset, DEFAULT_MAX_SLOTS);
    proof {
        lemma_valid_slot_run(data@, mo as int, 0, actual as nat, DEFAULT_MAX_SLOTS as nat);
    }
    let read_count = if actual >= block.variables.len() {
        block.variables.len()
    } else {
        actual
    };
    proof {
        lemma_valid_slots_read(data@, mo as int, read_count as nat);
    }
    let slots = match read_metadata_slots(data, metadata_offset, read_count) {
        Ok(slots) => slots,
        Err(e) => {
            return Err(e);
        },
    };
    assert(table_slots(data@, mo as int, read_count as nat, slots@));
    let columns = match match_ddi_to_slots(&block.variables, &slots) {
        Ok(columns) => columns,
        Err(e) => {
            let r = Err(e);
            let ghost any_columns: Seq<MetadataColumn> = Seq::empty();
            let ghost any_reduced: Result<(usize, Vec<usize>), MetadataLayoutError> = Err(e);
            assert(layout_steps(data@, *block, mo, slots@, any_columns, any_reduced, r));
            return r;
        },
    };
    proof {
        lemma_matched_widths(vars, slots@, columns@);
    }
    let reduced = cautiously_reduce_widths(metadata_offset, block.row_count, &columns);
    let ghost red = reduced;
    let (data_offset, widths) = match reduced {
        Ok(v) => v,
        Err(e) => {
            let r = Err(e);
            assert(layout_steps(data@, *block, mo, slots@, columns@, red, r));
            return r;
        },
    };
    let rows = block.row_count as usize;
    let mut k: usize = 0;
    while k < columns.len()
        invariant
            k <= columns@.len(),
            widths@.len() == columns@.len(),
            rows == block.row_count,
            first_column_problem(columns@, widths@, rows as nat, k as nat) is None,
            mo == metadata_offset,
            vars == block.variables@,
            table_slots(data@, mo as int, slots_to_read(data@, *block, mo), slots@),
            match_error(vars, slots@) is None,
            matched_columns(vars, slots@, columns@),
            reduction_result(mo, block.row_count, columns@, red),
            red == Ok::<(usize, Vec<usize>), MetadataLayoutError>((data_offset, widths)),
        decreases columns@.len() - k,
    {
        proof {
            lemma_column_problem_first(columns@, widths@, rows as nat, k as nat, columns@.len());
        }
        let bytes = match widths[k].checked_mul(rows) {
            Some(b) => b,
            None => {
                let r = Err(MetadataLayoutError::OffsetOverflow { context: "column payload size" });
                assert(layout_steps(data@, *block, mo, slots@, columns@, red, r));
                return r;
            },
        };
        if bytes == 0 {
            let r = Err(
                MetadataLayoutError::PayloadOutOfBounds { variable: columns[k].variable.name.clone() },
            );
            assert(layout_steps(data@, *block, mo, slots@, columns@, red, r));
            return r;
        }
        k += 1;
    }
    if let Err(e) = checked_range(data, data_offset, metadata_offset - data_offset, "metadata payload") {
        let r = Err(e);
        assert(layout_steps(data@, *block, mo, slots@, columns@, red, r));
        return r;
    }
    let mut out: Vec<MetadataColumn> = Vec::new();
    let mut m: usize = 0;
    while m < columns.len()
        invariant
            m <= columns@.len(),
            widths@.len() == columns@.len(),
            out@.len() == m,
            forall|q: int|
                0 <= q < m ==> {
                    &&& same_variable((#[trigger] out@[q]).variable, columns@[q].variable)
                    &&& out@[q].slot == columns@[q].slot
                    &&& out@[q].binary_width == widths@[q]
                },
        decreases columns@.len() - m,
    {
        out.push(
            MetadataColumn {
                variable: columns[m].variable.clone(),
                slot: columns[m].slot.clone(),
                binary_width: widths[m],
            },
        );
        m += 1;
    }
    let r = Ok(MetadataLayout { metadata_offset, data_offset, columns: out });
    assert(layout_steps(data@, *block, mo, slots@, columns@, red, r));
    r
}

/// The name of slot `index` of the table at `metadata_offset`, when the slot
/// lies inside `data` and its name is valid UTF-16.
pub open spec fn slot_name_at_spec(data: Seq<u8>, metadata_offset: int, index: int) -> Option<Seq<char>> {
    let at = slot_start(metadata_offset, index);
    if slot_offset_fits(metadata_offset, index) && at + SLOT_SIZE <= data.len() {
        slot_name(data, at)
    } else {
        None
    }
}

fn slot_name_at(data: &[u8], metadata_offset: usize, index: usize) -> (r: Option<Vec<char>>)
    ensures
        match slot_name_at_spec(data@, metadata_offset as int, index as int) {
            Some(name) => r matches Some(v) && v@ == name,
            None => r is None,
        },
{
    let _len = data.len();
    let at = match slot_offset(metadata_offset, index) {
        Ok(at) => at,
        Err(_) => return None,
    };
    if checked_range(data, at, SLOT_SIZE, "metadata slot").is_err() {
        return None;
    }
    decode_slot_name(data, at)
}

/// `needle` occurs in `data` at `p`.
pub open spec fn window_at(data: Seq<u8>, needle: Seq<u8>, p: int) -> bool {
    0 <= p && p + needle.len() <= data.len() && data.subrange(p, p + needle.len()) == needle
}

/// What finding the name of variable `index` at byte `p` decides: `None` ends
/// the search, `Some(None)` passes over this occurrence, and `Some(Some(o))`
/// accepts a table at `o`.
pub open spec fn occurrence_verdict(
    data: Seq<u8>,
    block: BlockDefinition,
    index: nat,
    used: Set<(usize, usize)>,
    p: int,
) -> Option<Option<usize>> {
    let vars = block.variables@;
    let n = vars.len();
    if p < NAME_OFFSET || index * SLOT_SIZE > usize::MAX || p - NAME_OFFSET < index * SLOT_SIZE {
        None
    } else {
        let mo = p - NAME_OFFSET - index * SLOT_SIZE;
        if used.contains((mo as usize, n as usize)) {
            Some(None)
        } else if mo + SLOT_SIZE > data.len() {
            None
        } else if slot_var_num(data, mo) == 0 || slot_var_num(data, mo) > MAX_VAR_NUMBER {
            Some(None)
        } else if !(slot_name(data, mo) matches Some(first) && names_close_spec(first, vars[0].name@)) {
            Some(None)
        } else {
            let actual = valid_slot_run(data, mo, 0, DEFAULT_MAX_SLOTS as nat);
            let last_name = if actual >= n {
                slot_name_at_spec(data, mo, n - 1)
            } else if n - actual <= 3 {
                slot_name_at_spec(data, mo, actual - 1)
            } else {
                None
            };
            if actual == 0 {
                Some(None)
            } else if !(last_name matches Some(last) && names_close_spec(last, vars[n - 1].name@)) {
                Some(None)
            } else {
                Some(Some(mo as usize))
            }
        }
    }
}

/// The table found by searching `data` from byte `from` for `needle`, the
/// UTF-16LE name of variable `index`: each occurrence is judged in turn.
pub open spec fn scan_from(
    data: Seq<u8>,
    needle: Seq<u8>,
    block: BlockDefinition,
    index: nat,
    used: Set<(usize, usize)>,
    from: int,
) -> Option<usize>
    decreases data.len() - from,
{
    if from < 0 || from + needle.len() > data.len() || needle.len() == 0 {
        None
    } else if window_at(data, needle, from) {
        match occurrence_verdict(data, block, index, used, from) {
            None => None,
            Some(None) => scan_from(data, needle, block, index, used, from + 1),
            Some(Some(mo)) => Some(mo),
        }
    } else {
        scan_from(data, needle, block, index, used, from + 1)
    }
}

/// Whether `needle` occurs in `data` at `p`.
fn window_matches(data: &[u8], needle: &[u8], p: usize) -> (r: bool)
    requires
        p + needle@.len() <= data@.len(),
    ensures
        r == window_at(data@, needle@, p as int),
{
    let len = data.len();
    let mut k: usize = 0;
    while k < needle.len()
        invariant
            k <= needle@.len(),
            len == data@.len(),
            p + needle@.len() <= data@.len(),
            forall|q: int| 0 <= q < k ==> data@[p + q] == needle@[q],
        decreases needle@.len() - k,
    {
        if data[p + k] != needle[k] {
            proof {
                assert(data@.subrange(p as int, p + needle@.len())[k as int] != needle@[k as int]);
            }
            return false;
        }
        k += 1;
    }
    proof {
        assert(data@.subrange(p as int, p + needle@.len()) =~= needle@);
    }
    true
}

/// Find the metadata table that the name of variable `candidate_index` points
/// to, and mark it used.
fn find_candidate(
    data: &[u8],
    block: &BlockDefinition,
    candidate_name: &str,
    candidate_index: usize,
    used: &mut BTreeSet<(usize, usize)>,
) -> (r: Option<usize>)
    requires
        block.variables@.len() > 0,
        candidate_index < block.variables@.len(),
    ensures
        r == scan_from(
            data@,
            utf16le(candidate_name@),
            *block,
            candidate_index as nat,
            old(used)@,
            0,
        ),
        match r {
            Some(mo) => final(used)@ == old(used)@.insert((mo, block.variables@.len() as usize)),
            None => final(used)@ == old(used)@,
        },
{
    let _len = data.len();
    let name_chars = chars_of(candidate_name);
    let needle = encode_utf16le(name_chars.as_slice());
    let ghost nd = needle@;
    let ghost u = used@;
    if needle.len() == 0 {
        return None;
    }
    let n = block.variables.len();
    let first_chars = chars_of(block.variables[0].name.as_str());
    let last_chars = chars_of(block.variables[n - 1].name.as_str());
    let mut from: usize = 0;
    while needle.len() <= data.len() - from
        invariant
            nd == needle@,
            u == old(used)@,
            nd == utf16le(candidate_name@),
            nd.len() > 0,
            u == used@,
            from <= data@.len(),
            n == block.variables@.len(),
            n > 0,
            candidate_index < n,
            first_chars@ == block.variables@[0].name@,
            last_chars@ == block.variables@[n - 1].name@,
            scan_from(data@, nd, *block, candidate_index as nat, u, 0) == scan_from(
                data@,
                nd,
                *block,
                candidate_index as nat,
                u,
                from as int,
            ),
        decreases data@.len() - from,
    {
        let p = from;
        from = from + 1;
        if !window_matches(data, needle.as_slice(), p) {
            continue;
        }
        // The verdict on the occurrence at `p`.
        if p < NAME_OFFSET {
            return None;
        }
        let slot_start = p - NAME_OFFSET;
        if candidate_index > usize::MAX / SLOT_SIZE {
            return None;
        }
        let step = candidate_index * SLOT_SIZE;
        if slot_start < step {
            return None;
        }
        let metadata_offset = slot_start - step;
        if used.contains(&(metadata_offset, n)) {
            continue;
        }
        if checked_range(data, metadata_offset, SLOT_SIZE, "first metadata slot").is_err() {
            return None;
        }
        let first_var_num = read_var_num(data, metadata_offset);
        if first_var_num == 0 || first_var_num > MAX_VAR_NUMBER {
            continue;
        }
        let first_name = match decode_slot_name(data, metadata_offset) {
            Some(name) => name,
            None => continue,
        };
        if !names_close(first_name.as_slice(), first_chars.as_slice()) {
            continue;
        }
        let actual = count_metadata_slots(data, metadata_offset, DEFAULT_MAX_SLOTS);
        proof {
            lemma_valid_slot_run(
                data@,
                metadata_offset as int,
                0,
                actual as nat,
                DEFAULT_MAX_SLOTS as nat,
            );
        }
        if actual == 0 {
            continue;
        }
        let last_name = if actual >= n {
            slot_name_at(data, metadata_offset, n - 1)
        } else if n - actual <= 3 {
            slot_name_at(data, metadata_offset, actual - 1)
        } else {
            None
        };
        let last_close = match &last_name {
            Some(name) => names_close(name.as_slice(), last_chars.as_slice()),
            None => false,
        };
        if !last_close {
            continue;
        }
        used.insert((metadata_offset, n));
        return Some(metadata_offset);
    }
    None
}

/// How many of `vars` are named `name`.
pub open spec fn count_named(vars: Seq<VariableDefinition>, name: Seq<char>) -> nat
    decreases vars.len(),
{
    if vars.len() == 0 {
        0
    } else {
        count_named(vars.drop_last(), name) + if vars.last().name@ == name {
            1nat
        } else {
            0nat
        }
    }
}

/// How many variables of all `blocks` are named `name`.
pub open spec fn name_owners(blocks: Seq<BlockDefinition>, name: Seq<char>) -> nat
    decreases blocks.len(),
{
    if blocks.len() == 0 {
        0
    } else {
        name_owners(blocks.drop_last(), name) + count_named(blocks.last().variables@, name)
    }
}

/// How many variables of all `blocks` are named `name`, counting no further
/// than two.
fn name_owner_count(blocks: &[BlockDefinition], name: &String) -> (r: usize)
    ensures
        r == if name_owners(blocks@, name@) >= 2 {
            2
        } else {
            name_owners(blocks@, name@)
        },
{
    let mut total: usize = 0;
    let mut b: usize = 0;
    while b < blocks.len()
        invariant
            b <= blocks@.len(),
            total <= 1,
            total == name_owners(blocks@.take(b as int), name@),
        decreases blocks@.len() - b,
    {
        let vars = &blocks[b].variables;
        let mut v: usize = 0;
        let ghost before = total as nat;
        while v < vars.len()
            invariant
                v <= vars@.len(),
                b < blocks@.len(),
                before == name_owners(blocks@.take(b as int), name@),
                vars == blocks@[b as int].variables,
                total <= 1,
                total == before + count_named(vars@.take(v as int), name@),
            decreases vars@.len() - v,
        {
            proof {
                assert(vars@.take(v + 1).drop_last() =~= vars@.take(v as int));
            }
            if vars[v].name == *name {
                if total == 1 {
                    proof {
                        lemma_name_owners_grow(blocks@, name@, b as nat, (v + 1) as nat);
                    }
                    return 2;
                }
                total += 1;
            }
            v += 1;
        }
        proof {
            assert(vars@.take(v as int) =~= vars@);
            assert(blocks@.take(b + 1).drop_last() =~= blocks@.take(b as int));
        }
        b += 1;
    }
    proof {
        assert(blocks@.take(b as int) =~= blocks@);
    }
    total
}

proof fn lemma_count_named_prefix(vars: Seq<VariableDefinition>, name: Seq<char>, k: nat)
    requires
        k <= vars.len(),
    ensures
        count_named(vars.take(k as int), name) <= count_named(vars, name),
    decreases vars.len(),
{
    if k < vars.len() {
        assert(vars.drop_last().take(k as int) =~= vars.take(k as int));
        lemma_count_named_prefix(vars.drop_last(), name, k);
    } else {
        assert(vars.take(k as int) =~= vars);
    }
}

proof fn lemma_name_owners_prefix(blocks: Seq<BlockDefinition>, name: Seq<char>, b: nat)
    requires
        b <= blocks.len(),
    ensures
        name_owners(blocks.take(b as int), name) <= name_owners(blocks, name),
    decreases blocks.len(),
{
    if b < blocks.len() {
        assert(blocks.drop_last().take(b as int) =~= blocks.take(b as int));
        lemma_name_owners_prefix(blocks.drop_last(), name, b);
    } else {
        assert(blocks.take(b as int) =~= blocks);
    }
}

/// Owners counted up to variable `v` of block `b` are owners of all blocks.
proof fn lemma_name_owners_grow(blocks: Seq<BlockDefinition>, name: Seq<char>, b: nat, v: nat)
    requires
        b < blocks.len(),
        v <= blocks[b as int].variables@.len(),
    ensures
        name_owners(blocks.take(b as int), name) + count_named(
            blocks[b as int].variables@.take(v as int),
            name,
        ) <= name_owners(blocks, name),
{
    lemma_count_named_prefix(blocks[b as int].variables@, name, v);
    assert(blocks.take(b + 1 as int).drop_last() =~= blocks.take(b as int));
    lemma_name_owners_prefix(blocks, name, b + 1);
}

/// The positions among the first `k` variables whose names no other variable
/// of `blocks` has.
pub open spec fn unique_positions(
    blocks: Seq<BlockDefinition>,
    vars: Seq<VariableDefinition>,
    k: nat,
) -> Seq<usize>
    decreases k,
{
    if k == 0 {
        Seq::empty()
    } else {
        let earlier = unique_positions(blocks, vars, (k - 1) as nat);
        if name_owners(blocks, vars[k - 1].name@) == 1 {
            earlier.push((k - 1) as usize)
        } else {
            earlier
        }
    }
}

/// The variables whose names are searched for, in turn: those with a unique
/// name, then the first, then the last.
pub open spec fn candidate_indices(blocks: Seq<BlockDefinition>, block: BlockDefinition) -> Seq<usize> {
    let vars = block.variables@;
    let n = vars.len();
    let base = unique_positions(blocks, vars, n).push(0);
    if n > 1 {
        base.push((n - 1) as usize)
    } else {
        base
    }
}

/// The table that the first successful candidate from position `k` on finds.
pub open spec fn try_candidates(
    data: Seq<u8>,
    block: BlockDefinition,
    candidates: Seq<usize>,
    used: Set<(usize, usize)>,
    k: nat,
) -> Option<usize>
    decreases candidates.len() - k,
{
    if k >= candidates.len() {
        None
    } else {
        let index = candidates[k as int];
        match scan_from(
            data,
            utf16le(block.variables@[index as int].name@),
            block,
            index as nat,
            used,
            0,
        ) {
            Some(mo) => Some(mo),
            None => try_candidates(data, block, candidates, used, k + 1),
        }
    }
}

/// The sections found for the first `t` blocks in `order`, and the tables
/// taken so far.
pub open spec fn sections_after(
    data: Seq<u8>,
    blocks: Seq<BlockDefinition>,
    order: Seq<usize>,
    t: nat,
) -> (Seq<(Seq<char>, usize)>, Set<(usize, usize)>)
    decreases t,
{
    if t == 0 {
        (Seq::empty(), Set::empty())
    } else {
        let (found, used) = sections_after(data, blocks, order, (t - 1) as nat);
        let block = blocks[order[t - 1] as int];
        let n = block.variables@.len();
        if n == 0 {
            (found, used)
        } else {
            match try_candidates(data, block, candidate_indices(blocks, block), used, 0) {
                Some(mo) => (found.push((block.file_id@, mo)), used.insert((mo, n as usize))),
                None => (found, used),
            }
        }
    }
}

/// The block order by file number, stably.
pub open spec fn file_number_keys(blocks: Seq<BlockDefinition>) -> Seq<u64> {
    Seq::new(blocks.len(), |i: int| blocks[i].file_id_number as u64)
}

/// The views of found sections.
pub open spec fn sections_view(found: Seq<(String, usize)>) -> Seq<(Seq<char>, usize)> {
    Seq::new(found.len(), |i: int| (found[i].0@, found[i].1))
}

/// The positions of the variables whose names are searched for.
fn candidate_list(blocks: &[BlockDefinition], block: &BlockDefinition) -> (r: Vec<usize>)
    requires
        block.variables@.len() > 0,
    ensures
        r@ == candidate_indices(blocks@, *block),
        forall|k: int| 0 <= k < r@.len() ==> #[trigger] r@[k] < block.variables@.len(),
{
    let vars = &block.variables;
    let n = vars.len();
    let mut r: Vec<usize> = Vec::new();
    let mut i: usize = 0;
    while i < n
        invariant
            i <= n,
            n == vars@.len(),
            vars == block.variables,
            r@ == unique_positions(blocks@, vars@, i as nat),
            forall|k: int| 0 <= k < r@.len() ==> #[trigger] r@[k] < i,
        decreases n - i,
    {
        if name_owner_count(blocks, &vars[i].name) == 1 {
            r.push(i);
        }
        i += 1;
    }
    r.push(0);
    if n > 1 {
        r.push(n - 1);
    }
    r
}

/// Find a validated metadata table for every block that has one.
pub fn find_metadata_sections(data: &[u8], blocks: &[BlockDefinition]) -> (found: Vec<(String, usize)>)
    ensures
        exists|order: Seq<usize>|
            #![trigger sections_after(data@, blocks@, order, blocks@.len())]
            is_stable_order(file_number_keys(blocks@), order) && sections_view(found@)
                == sections_after(data@, blocks@, order, blocks@.len()).0,
{
    let mut keys: Vec<u64> = Vec::new();
    let mut i: usize = 0;
    while i < blocks.len()
        invariant
            i <= blocks@.len(),
            keys@ == file_number_keys(blocks@).take(i as int),
        decreases blocks@.len() - i,
    {
        keys.push(blocks[i].file_id_number as u64);
        i += 1;
        proof {
            assert(keys@ =~= file_number_keys(blocks@).take(i as int));
        }
    }
    proof {
        assert(keys@ =~= file_number_keys(blocks@));
    }
    let order = stable_order(&keys);
    let mut found: Vec<(String, usize)> = Vec::new();
    let mut used: BTreeSet<(usize, usize)> = BTreeSet::new();
    let mut t: usize = 0;
    while t < order.len()
        invariant
            t <= order@.len(),
            is_stable_order(file_number_keys(blocks@), order@),
            (sections_view(found@), used@) == sections_after(data@, blocks@, order@, t as nat),
        decreases order@.len() - t,
    {
        let block = &blocks[order[t]];
        let n = block.variables.len();
        let ghost before = found@;
        if n > 0 {
            let candidates = candidate_list(blocks, block);
            let ghost u = used@;
            let mut k: usize = 0;
            let mut hit: Option<usize> = None;
            while k < candidates.len()
                invariant_except_break
                    hit is None,
                    used@ == u,
                invariant
                    k <= candidates@.len(),
                    candidates@ == candidate_indices(blocks@, *block),
                    forall|q: int| 0 <= q < candidates@.len() ==> #[trigger] candidates@[q] < n,
                    n == block.variables@.len(),
                    n > 0,
                    try_candidates(data@, *block, candidates@, u, 0) == try_candidates(
                        data@,
                        *block,
                        candidates@,
                        u,
                        k as nat,
                    ),
                ensures
                    match hit {
                        Some(mo) => used@ == u.insert((mo, n as usize)),
                        None => used@ == u,
                    },
                    hit == try_candidates(data@, *block, candidates@, u, 0),
                decreases candidates@.len() - k,
            {
                let index = candidates[k];
                let name = block.variables[index].name.as_str();
                let r = find_candidate(data, block, name, index, &mut used);
                if r.is_some() {
                    hit = r;
                    break;
                }
                k += 1;
            }
            if let Some(mo) = hit {
                found.push((block.file_id.clone(), mo));
                proof {
                    assert(sections_view(found@) =~= sections_view(before).push((block.file_id@, mo)));
                }
            }
        }
        t += 1;
    }
    proof {
        assert(order@.len() == blocks@.len());
    }
    found
}

/// The table that searching for the names of `block` alone finds.
pub open spec fn block_section(data: Seq<u8>, block: BlockDefinition) -> Option<usize> {
    if block.variables@.len() == 0 {
        None
    } else {
        try_candidates(data, block, candidate_indices(seq![block], block), Set::empty(), 0)
    }
}

/// What looking for one block's metadata table gives: the layout built
/// from the first table that belongs to the block, or why there is none.
pub open spec fn metadata_discovery(
    data: Seq<u8>,
    block: BlockDefinition,
    r: Result<MetadataLayout, MetadataLayoutError>,
) -> bool {
    match block_section(data, block) {
        None => r == Err::<MetadataLayout, MetadataLayoutError>(
            MetadataLayoutError::NotFound { block_id: block.file_id },
        ),
        Some(mo) => layout_outcome(data, block, mo as nat, r),
    }
}

/// Locate then build the metadata layout for one DDI block.
pub fn discover_metadata_layout(data: &[u8], block: &BlockDefinition) -> (r: Result<
    MetadataLayout,
    MetadataLayoutError,
>)
    ensures
        metadata_discovery(data@, *block, r),
{
    let blocks = core::slice::from_ref(block);
    let sections = find_metadata_sections(data, blocks);
    proof {
        assert(blocks@ == seq![*block]);
        let order = choose|order: Seq<usize>|
            #![trigger sections_after(data@, blocks@, order, blocks@.len())]
            is_stable_order(file_number_keys(blocks@), order) && sections_view(sections@)
                == sections_after(data@, blocks@, order, blocks@.len()).0;
        assert(order.len() == 1);
        assert(order[0] < 1);
        assert(order[0] == 0);
        let prev = sections_after(data@, blocks@, order, 0);
        assert(prev.0 == Seq::<(Seq<char>, usize)>::empty() && prev.1 == Set::<(usize, usize)>::empty());
        assert(blocks@[order[0] as int] == *block);
        let now = sections_after(data@, blocks@, order, 1);
        assert(sections_view(sections@) == now.0);
        assert(sections_view(sections@).len() == sections@.len());
        match block_section(data@, *block) {
            None => {
                assert(now.0.len() == 0);
            },
            Some(mo) => {
                assert(now.0 == seq![(block.file_id@, mo)]);
                assert(sections_view(sections@)[0].1 == sections@[0].1);
            },
        }
    }
    if sections.len() == 0 {
        return Err(MetadataLayoutError::NotFound { block_id: block.file_id.clone() });
    }
    let offset = sections[0].1;
    build_metadata_layout(data, block, offset)
}

/// `sorted` lists `columns` by `order`, their stable order by slot index.
pub open spec fn in_slot_order(
    columns: Seq<MetadataColumn>,
    sorted: Seq<&MetadataColumn>,
    order: Seq<usize>,
) -> bool {
    &&& is_stable_order(
        Seq::new(columns.len(), |i: int| columns[i].slot.slot_index as u64),
        order,
    )
    &&& sorted.len() == order.len()
    &&& forall|k: int| 0 <= k < order.len() ==> *#[trigger] sorted[k] == columns[order[k] as int]
}

impl MetadataLayout {
    /// The same columns in DDI (slot) order, for the output schema: stably
    /// sorted by slot index.
    pub fn columns_in_ddi_order(&self) -> (columns: Vec<&MetadataColumn>)
        ensures
            exists|order: Seq<usize>| #[trigger] in_slot_order(self.columns@, columns@, order),
    {
        let ghost key_seq = Seq::new(
            self.columns@.len(),
            |q: int| self.columns@[q].slot.slot_index as u64,
        );
        let mut keys: Vec<u64> = Vec::new();
        let mut i: usize = 0;
        while i < self.columns.len()
            invariant
                i <= self.columns@.len(),
                key_seq == Seq::new(
                    self.columns@.len(),
                    |q: int| self.columns@[q].slot.slot_index as u64,
                ),
                keys@ == key_seq.take(i as int),
            decreases self.columns@.len() - i,
        {
            keys.push(self.columns[i].slot.slot_index as u64);
            i += 1;
            proof {
                assert(keys@ =~= key_seq.take(i as int));
            }
        }
        proof {
            assert(keys@ =~= key_seq);
        }
        let order = stable_order(&keys);
        let mut columns: Vec<&MetadataColumn> = Vec::new();
        let mut k: usize = 0;
        while k < order.len()
            invariant
                k <= order@.len(),
                is_stable_order(key_seq, order@),
                key_seq.len() == self.columns@.len(),
                columns@.len() == k,
                forall|q: int| 0 <= q < k ==> *#[trigger] columns@[q] == self.columns@[order@[q] as int],
            decreases order@.len() - k,
        {
            columns.push(&self.columns[order[k]]);
            k += 1;
        }
        proof {
            assert(in_slot_order(self.columns@, columns@, order@));
        }
        columns
    }
}

} // verus!
