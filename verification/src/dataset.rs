//! A block's data, whichever of the two layouts the container uses.

use vstd::prelude::*;
use crate::decode::{
    decode_metadata_batch, decode_resource_batch, metadata_batch_outcome, metadata_rows,
    metadata_rows_failure, offset_widths_fit, resource_batch_outcome, rows_from_metadata,
    ColumnBatch, DecodeError,
};
use crate::layout::metadata_scan::{
    discover_metadata_layout, metadata_discovery, MetadataColumn, MetadataEncoding, MetadataLayout,
    MetadataLayoutError,
};
use crate::layout::resource_index::{
    discover_resource_layout, resource_discovery, ResourceColumn, ResourceLayout,
    ResourceLayoutError,
};
use crate::model::BlockDefinition;
use crate::order::{reorder, stable_order_of};
use crate::source::ReadOnlySource;
use crate::text::string_views;

verus! {

/// How a block's values are laid out.
pub enum DataLayout {
    Resource(ResourceLayout),
    Metadata(MetadataLayout),
}

/// What looking for a block's layout gives: the resource-index layout if
/// there is one, else the metadata-scan layout or why there is none.
pub open spec fn layout_found(
    data: Seq<u8>,
    block: BlockDefinition,
    r: Result<DataLayout, MetadataLayoutError>,
) -> bool {
    match r {
        Ok(DataLayout::Resource(l)) => resource_discovery(data, block, Ok(l)),
        Ok(DataLayout::Metadata(l)) => (exists|e: ResourceLayoutError|
            resource_discovery(data, block, Err(e))) && metadata_discovery(data, block, Ok(l)),
        Err(e) => (exists|x: ResourceLayoutError| resource_discovery(data, block, Err(x)))
            && metadata_discovery(data, block, Err(e)),
    }
}

/// Find a block's layout: the resource index first, then the metadata scan.
pub fn discover_layout(data: &[u8], block: &BlockDefinition) -> (r: Result<DataLayout, MetadataLayoutError>)
    ensures
        layout_found(data@, *block, r),
{
    match discover_resource_layout(data, block) {
        Ok(l) => Ok(DataLayout::Resource(l)),
        Err(x) => match discover_metadata_layout(data, block) {
            Ok(l) => Ok(DataLayout::Metadata(l)),
            Err(e) => Err(e),
        },
    }
}

/// The slot indices of metadata columns, as sort keys.
pub open spec fn slot_keys(columns: Seq<MetadataColumn>) -> Seq<u64> {
    Seq::new(columns.len(), |i: int| columns[i].slot.slot_index as u64)
}

/// The output schema of a layout: its variable names, in DDI order.
pub open spec fn layout_headers(layout: DataLayout) -> Seq<Seq<char>> {
    match layout {
        DataLayout::Resource(l) => l.columns@.map_values(|c: ResourceColumn| c.variable.name@),
        DataLayout::Metadata(l) => reorder(l.columns@, stable_order_of(slot_keys(l.columns@))).map_values(
            |c: MetadataColumn| c.variable.name@,
        ),
    }
}

/// The first offset-integer column from `i` on that is wider than eight
/// bytes, as an error.
pub open spec fn offset_width_error(columns: Seq<MetadataColumn>, i: nat) -> Option<DecodeError>
    decreases columns.len() - i,
{
    if i >= columns.len() {
        None
    } else if columns[i as int].slot.encoding == MetadataEncoding::OffsetInteger
        && columns[i as int].binary_width > 8 {
        Some(
            DecodeError::InvalidWidth {
                variable: columns[i as int].variable.name,
                width: columns[i as int].binary_width,
            },
        )
    } else {
        offset_width_error(columns, i + 1)
    }
}

/// What counting a layout's rows gives; a metadata layout whose offset
/// integers are wider than a `u64` is refused.
pub open spec fn rows_outcome(layout: DataLayout, r: Result<usize, DecodeError>) -> bool {
    match layout {
        DataLayout::Resource(l) => if l.row_count > usize::MAX {
            r == Err::<usize, DecodeError>(DecodeError::Overflow { context: "resource row count" })
        } else {
            r == Ok::<usize, DecodeError>(l.row_count as usize)
        },
        DataLayout::Metadata(l) => match metadata_rows(l) {
            Err(_) => metadata_rows_failure(l, r),
            Ok(n) => match offset_width_error(l.columns@, 0) {
                Some(e) => r == Err::<usize, DecodeError>(e),
                None => r == Ok::<usize, DecodeError>(n as usize),
            },
        },
    }
}

/// What decoding rows `start .. start + count` of a layout gives.
pub open spec fn batch_outcome<F: Fn(u64, usize) -> String>(
    format: F,
    source: ReadOnlySource,
    layout: DataLayout,
    start: usize,
    count: usize,
    r: Result<Vec<ColumnBatch>, DecodeError>,
) -> bool {
    match layout {
        DataLayout::Resource(l) => resource_batch_outcome(format, source, l, start, count, r),
        DataLayout::Metadata(l) => metadata_batch_outcome(format, source, l, start, count, r),
    }
}

proof fn lemma_no_offset_width_error(columns: Seq<MetadataColumn>, i: nat)
    requires
        offset_width_error(columns, i) is None,
    ensures
        forall|k: int|
            i <= k < columns.len() && (#[trigger] columns[k]).slot.encoding
                == MetadataEncoding::OffsetInteger ==> columns[k].binary_width <= 8,
    decreases columns.len() - i,
{
    if i < columns.len() {
        lemma_no_offset_width_error(columns, i + 1);
    }
}

impl DataLayout {
    /// The output schema: the variable names, in DDI order.
    pub fn headers(&self) -> (r: Vec<String>)
        ensures
            string_views(r@) == layout_headers(*self),
    {
        match self {
            DataLayout::Resource(l) => {
                let mut names: Vec<String> = Vec::new();
                let mut i: usize = 0;
                while i < l.columns.len()
                    invariant
                        i <= l.columns@.len(),
                        string_views(names@) == l.columns@.take(i as int).map_values(
                            |c: ResourceColumn| c.variable.name@,
                        ),
                    decreases l.columns@.len() - i,
                {
                    let ghost prev = names@;
                    let name = l.columns[i].variable.name.clone();
                    names.push(name);
                    i += 1;
                    proof {
                        crate::text::lemma_string_views_push(prev, name);
                        assert(l.columns@.take(i as int).map_values(|c: ResourceColumn| c.variable.name@)
                            =~= l.columns@.take(i - 1).map_values(
                            |c: ResourceColumn| c.variable.name@,
                        ).push(name@));
                    }
                }
                proof {
                    assert(l.columns@.take(i as int) =~= l.columns@);
                }
                names
            },
            DataLayout::Metadata(l) => {
                let ordered = l.columns_in_ddi_order();
                let ghost order = choose|order: Seq<usize>|
                    crate::layout::metadata_scan::in_slot_order(l.columns@, ordered@, order);
                proof {
                    assert(slot_keys(l.columns@) =~= Seq::new(
                        l.columns@.len(),
                        |i: int| l.columns@[i].slot.slot_index as u64,
                    ));
                    crate::order::lemma_is_the_stable_order(slot_keys(l.columns@), order);
                }
                let ghost want = layout_headers(*self);
                let mut names: Vec<String> = Vec::new();
                let mut i: usize = 0;
                while i < ordered.len()
                    invariant
                        i <= ordered@.len(),
                        crate::layout::metadata_scan::in_slot_order(l.columns@, ordered@, order),
                        order == stable_order_of(slot_keys(l.columns@)),
                        want == reorder(l.columns@, order).map_values(
                            |c: MetadataColumn| c.variable.name@,
                        ),
                        string_views(names@) == want.take(i as int),
                    decreases ordered@.len() - i,
                {
                    let ghost prev = names@;
                    let name = ordered[i].variable.name.clone();
                    names.push(name);
                    i += 1;
                    proof {
                        crate::text::lemma_string_views_push(prev, name);
                        assert(order[i - 1] < l.columns@.len());
                        assert(want[i - 1] == name@);
                        assert(want.take(i as int) =~= want.take(i - 1).push(name@));
                    }
                }
                proof {
                    assert(want.take(i as int) =~= want);
                }
                names
            },
        }
    }

    /// The number of rows, or why the rows cannot be decoded.
    pub fn row_total(&self) -> (r: Result<usize, DecodeError>)
        ensures
            rows_outcome(*self, r),
    {
        match self {
            DataLayout::Resource(l) => {
                if l.row_count > usize::MAX as u64 {
                    Err(DecodeError::Overflow { context: "resource row count" })
                } else {
                    Ok(l.row_count as usize)
                }
            },
            DataLayout::Metadata(l) => {
                let rows = match rows_from_metadata(l) {
                    Ok(n) => n,
                    Err(e) => return Err(e),
                };
                let mut i: usize = 0;
                while i < l.columns.len()
                    invariant
                        i <= l.columns@.len(),
                        offset_width_error(l.columns@, 0) == offset_width_error(l.columns@, i as nat),
                        crate::decode::metadata_rows_result(*l, Ok::<usize, DecodeError>(rows)),
                        *self == DataLayout::Metadata(*l),
                    decreases l.columns@.len() - i,
                {
                    let c = &l.columns[i];
                    if c.slot.encoding == MetadataEncoding::OffsetInteger && c.binary_width > 8 {
                        proof {
                            assert(metadata_rows(*l) is Ok);
                            assert(offset_width_error(l.columns@, i as nat) == Some(
                                DecodeError::InvalidWidth {
                                    variable: l.columns@[i as int].variable.name,
                                    width: l.columns@[i as int].binary_width,
                                },
                            ));
                        }
                        let e = DecodeError::InvalidWidth {
                            variable: c.variable.name.clone(),
                            width: c.binary_width,
                        };
                        proof {
                            assert(offset_width_error(l.columns@, 0) == Some(e));
                        }
                        return Err(e);
                    }
                    i += 1;
                }
                Ok(rows)
            },
        }
    }

    /// Decode rows `start .. start + count` of a layout with `rows` rows.
    pub fn decode_batch<F: Fn(u64, usize) -> String>(
        &self,
        source: &ReadOnlySource,
        rows: usize,
        start: usize,
        count: usize,
        format: &F,
    ) -> (r: Result<Vec<ColumnBatch>, DecodeError>)
        requires
            forall|b: u64, p: usize| format.requires((b, p)),
            rows_outcome(*self, Ok::<usize, DecodeError>(rows)),
            start + count <= rows,
        ensures
            batch_outcome(*format, *source, *self, start, count, r),
    {
        match self {
            DataLayout::Resource(l) => decode_resource_batch(source, l, start, count, format),
            DataLayout::Metadata(l) => {
                proof {
                    lemma_no_offset_width_error(l.columns@, 0);
                }
                decode_metadata_batch(source, l, start, count, format)
            },
        }
    }
}


/// A batch that decodes holds one column per name of the schema, each with
/// a value for every row asked for.
pub proof fn lemma_batch_shape<F: Fn(u64, usize) -> String>(
    format: F,
    source: ReadOnlySource,
    layout: DataLayout,
    start: usize,
    count: usize,
    batches: Vec<ColumnBatch>,
)
    requires
        batch_outcome(format, source, layout, start, count, Ok::<Vec<ColumnBatch>, DecodeError>(batches)),
    ensures
        batches@.len() == layout_headers(layout).len(),
        forall|k: int| 0 <= k < batches@.len() ==> (#[trigger] batches@[k]).values@.len() == count,
{
    match layout {
        DataLayout::Resource(l) => {
            let n = l.columns@.len();
            let rows = l.row_count as usize;
            assert(batches@.len() == n);
            assert forall|k: int| 0 <= k < batches@.len() implies (#[trigger] batches@[k]).values@.len()
                == count by {
                assert(crate::decode::resource_batch(
                    format,
                    source,
                    l.columns@[k],
                    rows,
                    start,
                    count,
                    batches@[k],
                ));
            }
        },
        DataLayout::Metadata(l) => {
            let rows = metadata_rows(l)->Ok_0;
            let order = choose|order: Seq<usize>|
                #[trigger] crate::decode::metadata_batch_by_order(
                    format,
                    source,
                    l,
                    rows,
                    order,
                    start,
                    count,
                    Ok::<Vec<ColumnBatch>, DecodeError>(batches),
                );
            let n = l.columns@.len();
            assert(slot_keys(l.columns@) =~= Seq::new(n, |i: int| l.columns@[i].slot.slot_index as u64));
            crate::order::lemma_is_the_stable_order(slot_keys(l.columns@), order);
            assert(batches@.len() == n);
            assert forall|k: int| 0 <= k < batches@.len() implies (#[trigger] batches@[k]).values@.len()
                == count by {
                assert(crate::decode::metadata_batch(
                    format,
                    source,
                    l.columns@[order[k] as int],
                    crate::decode::ddi_column_position(l, rows, order, k) as usize,
                    start,
                    count,
                    batches@[k],
                ));
            }
        },
    }
}

} // verus!
