//! Growing columns of counts, one entry per chunk, kept in Arrow builders.

use vstd::prelude::*;

verus! {

/// The column of null counts of one field: an Arrow builder of unsigned
/// 32-bit integers, to which one count is appended per chunk.
#[verifier::external_body]
pub struct NullCountColumn {
    builder: arrow_array::builder::PrimitiveBuilder<arrow_array::types::UInt32Type>,
}

/// The column of row counts of a collector: an Arrow builder of signed 64-bit
/// integers, to which one count is appended per chunk.
#[verifier::external_body]
pub struct RowCountColumn {
    builder: arrow_array::builder::PrimitiveBuilder<arrow_array::types::Int64Type>,
}

/// The null counts that a column holds, oldest first.
pub uninterp spec fn null_counts(column: NullCountColumn) -> Seq<u32>;

/// The row counts that a column holds, oldest first.
pub uninterp spec fn row_counts(column: RowCountColumn) -> Seq<i64>;

/// An empty column of null counts. Calls `PrimitiveBuilder::new`, which
/// makes a builder without entries.
#[verifier::external_body]
pub(crate) fn new_null_counts() -> (column: NullCountColumn)
    ensures
        null_counts(column) == Seq::<u32>::empty(),
{
    NullCountColumn { builder: arrow_array::builder::PrimitiveBuilder::new() }
}

/// Adds one null count at the end. Calls `PrimitiveBuilder::append_value`,
/// which pushes the value as a non-null entry behind the entries it has.
#[verifier::external_body]
pub(crate) fn append_null_count(column: &mut NullCountColumn, count: u32)
    ensures
        null_counts(*final(column)) == null_counts(*old(column)).push(count),
{
    column.builder.append_value(count)
}

/// How many null counts the column holds. Calls `ArrayBuilder::len`, the
/// number of entries that were appended.
#[verifier::external_body]
pub(crate) fn null_counts_len(column: &NullCountColumn) -> (n: usize)
    ensures
        n == null_counts(*column).len(),
{
    arrow_array::builder::ArrayBuilder::len(&column.builder)
}

/// Takes the null counts out of the column, oldest first, and leaves it
/// empty. Calls `PrimitiveBuilder::finish`, which builds an array of the
/// entries appended so far, in order, and resets the builder; the array's
/// values are copied out.
#[verifier::external_body]
pub(crate) fn take_null_counts(column: &mut NullCountColumn) -> (counts: Vec<u32>)
    ensures
        counts@ == null_counts(*old(column)),
        null_counts(*final(column)) == Seq::<u32>::empty(),
{
    column.builder.finish().values().to_vec()
}

/// An empty column of row counts. Calls `PrimitiveBuilder::new`, which
/// makes a builder without entries.
#[verifier::external_body]
pub(crate) fn new_row_counts() -> (column: RowCountColumn)
    ensures
        row_counts(column) == Seq::<i64>::empty(),
{
    RowCountColumn { builder: arrow_array::builder::PrimitiveBuilder::new() }
}

/// Adds one row count at the end. Calls `PrimitiveBuilder::append_value`,
/// which pushes the value as a non-null entry behind the entries it has.
#[verifier::external_body]
pub(crate) fn append_row_count(column: &mut RowCountColumn, count: i64)
    ensures
        row_counts(*final(column)) == row_counts(*old(column)).push(count),
{
    column.builder.append_value(count)
}

/// How many row counts the column holds. Calls `ArrayBuilder::len`, the
/// number of entries that were appended.
#[verifier::external_body]
pub(crate) fn row_counts_len(column: &RowCountColumn) -> (n: usize)
    ensures
        n == row_counts(*column).len(),
{
    arrow_array::builder::ArrayBuilder::len(&column.builder)
}

/// Takes the row counts out of the column, oldest first, and leaves it
/// empty. Calls `PrimitiveBuilder::finish`, which builds an array of the
/// entries appended so far, in order, and resets the builder; the array's
/// values are copied out.
#[verifier::external_body]
pub(crate) fn take_row_counts(column: &mut RowCountColumn) -> (counts: Vec<i64>)
    ensures
        counts@ == row_counts(*old(column)),
        row_counts(*final(column)) == Seq::<i64>::empty(),
{
    column.builder.finish().values().to_vec()
}

} // verus!
