//! Collecting the statistics of many chunks: one growing set of columns per
//! field, and the table they make once every field has a row for every
//! chunk.

use crate::columns::{
    NullCountColumn, RowCountColumn, append_null_count, append_row_count, new_null_counts,
    new_row_counts, null_counts, null_counts_len, row_counts, row_counts_len, take_null_counts,
    take_row_counts,
};
use crate::statistics::{StatisticsError, StatisticsRow};
use crate::value::{DataType, Scalar, ScalarView, opt_scalar};
use vstd::prelude::*;

verus! {

/// A field of the schema whose chunks get statistics.
#[derive(Clone, Debug, PartialEq, Eq)]
pub struct Field {
    /// The id by which the field's statistics are found.
    pub id: i32,
    pub name: String,
    /// The declared type of the field's elements.
    pub data_type: DataType,
    pub nullable: bool,
}

/// The bounds of a column, each as what it stands for.
pub open spec fn scalar_views(bounds: Seq<Option<Scalar>>) -> Seq<Option<ScalarView>> {
    Seq::new(bounds.len(), |k: int| opt_scalar(bounds[k]))
}

/// The statistics of one field, a row per chunk, column by column.
#[derive(Debug, PartialEq, Eq)]
pub struct FieldStatistics {
    /// The id of the field, by which its group of columns is named.
    pub field_id: i32,
    /// The type of the bounds.
    pub data_type: DataType,
    /// The null count of each chunk.
    pub null_count: Vec<u32>,
    /// The minimum of each chunk, where one is known.
    pub min_value: Vec<Option<Scalar>>,
    /// The maximum of each chunk, where one is known.
    pub max_value: Vec<Option<Scalar>>,
}

/// The statistics of all fields: the row count of each chunk, and for each
/// field a group of three columns.
#[derive(Debug, PartialEq, Eq)]
pub struct StatisticsTable {
    /// The number of rows of each chunk.
    pub num_values: Vec<i64>,
    /// The statistics of each field.
    pub fields: Vec<FieldStatistics>,
}

/// The statistics of one field, to which a row is appended per chunk.
pub struct StatisticsBuilder {
    null_count: NullCountColumn,
    min_value: Vec<Option<Scalar>>,
    max_value: Vec<Option<Scalar>>,
    dt: DataType,
}

impl StatisticsBuilder {
    /// The null counts appended so far, oldest first.
    pub closed spec fn null_counts(&self) -> Seq<u32> {
        null_counts(self.null_count)
    }

    /// The minimums appended so far, oldest first; absent where a chunk had
    /// none.
    pub closed spec fn min_values(&self) -> Seq<Option<ScalarView>> {
        scalar_views(self.min_value@)
    }

    /// The maximums appended so far, oldest first; absent where a chunk had
    /// none.
    pub closed spec fn max_values(&self) -> Seq<Option<ScalarView>> {
        scalar_views(self.max_value@)
    }

    /// The type of the field, fixed when the builder was made.
    pub closed spec fn data_type(&self) -> DataType {
        self.dt
    }

    /// The three columns have one entry per chunk appended.
    pub open spec fn wf(&self) -> bool {
        &&& self.min_values().len() == self.null_counts().len()
        &&& self.max_values().len() == self.null_counts().len()
    }

    /// A builder for a field of `data_type`, without rows.
    pub fn new(data_type: &DataType) -> (builder: Self)
        ensures
            builder.wf(),
            builder.data_type() == *data_type,
            builder.null_counts().len() == 0,
    {
        StatisticsBuilder {
            null_count: new_null_counts(),
            min_value: Vec::new(),
            max_value: Vec::new(),
            dt: *data_type,
        }
    }

    /// The type of the field.
    pub fn field_type(&self) -> (data_type: DataType)
        ensures
            data_type == self.data_type(),
    {
        self.dt
    }

    /// How many chunks have a row.
    pub fn len(&self) -> (n: usize)
        ensures
            n == self.null_counts().len(),
    {
        null_counts_len(&self.null_count)
    }

    /// Whether the bounds of `row` are values of the field's type, as `append`
    /// asks.
    pub fn accepts(&self, row: &StatisticsRow) -> (yes: bool)
        ensures
            yes == (self.data_type().admits(opt_scalar(row.min_value))
                && self.data_type().admits(opt_scalar(row.max_value))),
    {
        self.dt.admits_bound(&row.min_value) && self.dt.admits_bound(&row.max_value)
    }

    /// Appends the row of one chunk to the three columns: the null count
    /// always, and each bound as it is, present or absent.
    pub fn statistics_appender(&mut self, row: StatisticsRow)
        requires
            old(self).wf(),
        ensures
            final(self).wf(),
            final(self).data_type() == old(self).data_type(),
            final(self).null_counts() == old(self).null_counts().push(row.null_count),
            final(self).min_values() == old(self).min_values().push(opt_scalar(row.min_value)),
            final(self).max_values() == old(self).max_values().push(opt_scalar(row.max_value)),
    {
        let ghost before_min = self.min_value@;
        let ghost before_max = self.max_value@;
        append_null_count(&mut self.null_count, row.null_count);
        self.min_value.push(row.min_value);
        self.max_value.push(row.max_value);
        assert(scalar_views(before_min.push(row.min_value)) =~= scalar_views(before_min).push(
            opt_scalar(row.min_value),
        ));
        assert(scalar_views(before_max.push(row.max_value)) =~= scalar_views(before_max).push(
            opt_scalar(row.max_value),
        ));
    }

    /// Appends the statistics of one chunk of the field. The bounds of the
    /// row are values of the field's type.
    pub fn append(&mut self, row: StatisticsRow)
        requires
            old(self).wf(),
            old(self).data_type().admits(opt_scalar(row.min_value)),
            old(self).data_type().admits(opt_scalar(row.max_value)),
        ensures
            final(self).wf(),
            final(self).data_type() == old(self).data_type(),
            final(self).null_counts() == old(self).null_counts().push(row.null_count),
            final(self).min_values() == old(self).min_values().push(opt_scalar(row.min_value)),
            final(self).max_values() == old(self).max_values().push(opt_scalar(row.max_value)),
    {
        self.statistics_appender(row)
    }

    /// Takes the rows out as the columns of the field `field_id`, and leaves
    /// the builder without rows.
    pub fn finish(&mut self, field_id: i32) -> (columns: FieldStatistics)
        requires
            old(self).wf(),
        ensures
            final(self).wf(),
            final(self).data_type() == old(self).data_type(),
            final(self).null_counts().len() == 0,
            columns.field_id == field_id,
            columns.data_type == old(self).data_type(),
            columns.null_count@ == old(self).null_counts(),
            scalar_views(columns.min_value@) == old(self).min_values(),
            scalar_views(columns.max_value@) == old(self).max_values(),
    {
        let null_count = take_null_counts(&mut self.null_count);
        let mut min_value: Vec<Option<Scalar>> = Vec::new();
        let mut max_value: Vec<Option<Scalar>> = Vec::new();
        std::mem::swap(&mut self.min_value, &mut min_value);
        std::mem::swap(&mut self.max_value, &mut max_value);
        FieldStatistics { field_id, data_type: self.dt, null_count, min_value, max_value }
    }
}

/// Some field among `fields` has the id `id`.
pub open spec fn has_id(fields: Seq<Field>, id: i32) -> bool {
    exists|k: int| 0 <= k < fields.len() && (#[trigger] fields[k]).id == id
}

/// No two fields have the same id.
pub open spec fn distinct_ids(fields: Seq<Field>) -> bool {
    forall|a: int, b: int|
        0 <= a < b < fields.len() ==> (#[trigger] fields[a]).id != (#[trigger] fields[b]).id
}

/// `field` stands in `fields`, and no field after that place has its id.
pub open spec fn is_last_with_id(fields: Seq<Field>, field: Field) -> bool {
    exists|j: int|
        0 <= j < fields.len() && #[trigger] fields[j] == field && forall|l: int|
            j < l < fields.len() ==> (#[trigger] fields[l]).id != field.id
}

/// The place of the first field with the id `id`, or the number of fields if
/// none has it.
pub open spec fn first_with_id(fields: Seq<Field>, id: i32) -> int
    decreases fields.len(),
{
    if fields.len() == 0 {
        0
    } else if fields[0].id == id {
        0
    } else {
        1 + first_with_id(fields.drop_first(), id)
    }
}

/// The first field with an id stands where no field before it has the id;
/// there is one exactly if some field has the id.
pub proof fn lemma_first_with_id(fields: Seq<Field>, id: i32, k: int)
    requires
        0 <= k <= fields.len(),
        forall|j: int| 0 <= j < k ==> (#[trigger] fields[j]).id != id,
        k < fields.len() ==> fields[k].id == id,
    ensures
        first_with_id(fields, id) == k,
        has_id(fields, id) <==> k < fields.len(),
    decreases fields.len(),
{
    if fields.len() > 0 && fields[0].id != id {
        let rest = fields.drop_first();
        assert forall|j: int| 0 <= j < k - 1 implies (#[trigger] rest[j]).id != id by {
            assert(fields[j + 1].id != id);
        }
        lemma_first_with_id(rest, id, k - 1);
    }
    if k < fields.len() {
        assert(fields[k].id == id);
    }
}

/// The fields that get a builder: of the fields with one id the last, all in
/// the order in which they stand in `fields`.
pub open spec fn last_of_each_id(fields: Seq<Field>) -> Seq<Field>
    decreases fields.len(),
{
    if fields.len() == 0 {
        Seq::empty()
    } else if has_id(fields.drop_first(), fields[0].id) {
        last_of_each_id(fields.drop_first())
    } else {
        seq![fields[0]] + last_of_each_id(fields.drop_first())
    }
}

/// Whether some field among `fields` has the id `id`.
fn contains_id(fields: &Vec<Field>, id: i32) -> (found: bool)
    ensures
        found == has_id(fields@, id),
{
    let mut k: usize = 0;
    while k < fields.len()
        invariant
            k <= fields@.len(),
            forall|j: int| 0 <= j < k ==> (#[trigger] fields@[j]).id != id,
        decreases fields@.len() - k,
    {
        if fields[k].id == id {
            return true;
        }
        k += 1;
    }
    false
}

/// Collects the statistics of the chunks of a set of fields, and the row
/// count of each chunk.
pub struct StatisticsCollector {
    num_rows: RowCountColumn,
    fields: Vec<Field>,
    builders: Vec<StatisticsBuilder>,
}

impl StatisticsCollector {
    /// The row counts appended so far, oldest first.
    pub closed spec fn row_counts(&self) -> Seq<i64> {
        row_counts(self.num_rows)
    }

    /// The fields that have a builder, each id once.
    pub closed spec fn fields(&self) -> Seq<Field> {
        self.fields@
    }

    /// The builders, each at the place of its field.
    pub closed spec fn builders(&self) -> Seq<StatisticsBuilder> {
        self.builders@
    }

    /// Every field has one builder, of the field's type and with columns of
    /// one length, and no id occurs twice.
    pub open spec fn wf(&self) -> bool {
        &&& self.builders().len() == self.fields().len()
        &&& distinct_ids(self.fields())
        &&& forall|k: int|
            0 <= k < self.builders().len() ==> (#[trigger] self.builders()[k]).wf()
                && self.builders()[k].data_type() == self.fields()[k].data_type
    }

    /// Every field has a row for every chunk that has a row count, and no
    /// more.
    pub open spec fn aligned(&self) -> bool {
        forall|k: int|
            0 <= k < self.builders().len() ==> (#[trigger] self.builders()[k]).null_counts().len()
                == self.row_counts().len()
    }

    /// The field at place `k` is the first whose rows are not as many as the
    /// row counts.
    pub open spec fn first_misaligned(&self, k: int) -> bool {
        &&& 0 <= k < self.builders().len()
        &&& self.builders()[k].null_counts().len() != self.row_counts().len()
        &&& forall|j: int|
            0 <= j < k ==> (#[trigger] self.builders()[j]).null_counts().len()
                == self.row_counts().len()
    }

    /// A collector for `fields`, without rows. Where several fields have one
    /// id, the last of them is the one that gets the builder. The fields keep
    /// their order.
    pub fn new(fields: Vec<Field>) -> (collector: Self)
        ensures
            collector.wf(),
            collector.row_counts().len() == 0,
            collector.fields() == last_of_each_id(fields@),
            forall|k: int|
                0 <= k < collector.builders().len()
                    ==> (#[trigger] collector.builders()[k]).null_counts().len()
                    == 0,
            forall|id: i32| has_id(collector.fields(), id) <==> has_id(fields@, id),
            forall|k: int|
                0 <= k < collector.fields().len() ==> is_last_with_id(
                    fields@,
                    #[trigger] collector.fields()[k],
                ),
    {
        let mut rest = fields;
        let mut kept: Vec<Field> = Vec::new();
        while rest.len() > 0
            invariant
                rest@.len() <= fields@.len(),
                rest@ == fields@.take(rest@.len() as int),
                distinct_ids(kept@),
                forall|id: i32|
                    has_id(kept@, id) <==> has_id(
                        fields@.subrange(rest@.len() as int, fields@.len() as int),
                        id,
                    ),
                forall|k: int| 0 <= k < kept@.len()
                    ==> is_last_with_id(fields@, #[trigger] kept@[k]),
                kept@.len() == last_of_each_id(
                    fields@.subrange(rest@.len() as int, fields@.len() as int),
                ).len(),
                forall|k: int|
                    0 <= k < kept@.len() ==> #[trigger] kept@[k] == last_of_each_id(
                        fields@.subrange(rest@.len() as int, fields@.len() as int),
                    )[kept@.len() - 1 - k],
            decreases rest@.len(),
        {
            let ghost n = rest@.len() as int;
            let ghost before = kept@;
            let ghost tail = fields@.subrange(n, fields@.len() as int);
            let ghost longer = fields@.subrange(n - 1, fields@.len() as int);
            assert(forall|id: i32| has_id(before, id) <==> has_id(tail, id));
            let field = rest.pop().unwrap();
            assert(field == fields@[n - 1]);
            assert(rest@ =~= fields@.take(n - 1));
            let known = contains_id(&kept, field.id);
            proof {
                assert(longer =~= seq![field] + tail);
                assert forall|id: i32| has_id(longer, id) <==> (id == field.id
                    || has_id(tail, id)) by {
                    if has_id(longer, id) {
                        let k = choose|k: int| 0 <= k < longer.len() && (#[trigger] longer[k]).id
                            == id;
                        if k > 0 {
                            assert(tail[k - 1].id == id);
                        }
                    }
                    if has_id(tail, id) {
                        let k = choose|k: int| 0 <= k < tail.len() && (#[trigger] tail[k]).id == id;
                        assert(longer[k + 1].id == id);
                    }
                    if id == field.id {
                        assert(longer[0].id == id);
                    }
                }
            }
            if !known {
                kept.push(field);
                proof {
                    assert forall|id: i32| has_id(kept@, id) <==> (id == field.id
                        || has_id(before, id)) by {
                        if has_id(kept@, id) {
                            let k = choose|k: int| 0 <= k < kept@.len() && (#[trigger] kept@[k]).id
                                == id;
                            if k < before.len() {
                                assert(before[k].id == id);
                            }
                        }
                        if has_id(before, id) {
                            let k = choose|k: int| 0 <= k < before.len()
                                && (#[trigger] before[k]).id == id;
                            assert(kept@[k].id == id);
                        }
                        if id == field.id {
                            assert(kept@[before.len() as int].id == id);
                        }
                    }
                    assert(distinct_ids(kept@)) by {
                        assert forall|a: int, b: int| 0 <= a < b < kept@.len()
                            implies (#[trigger] kept@[a]).id != (#[trigger] kept@[b]).id by {
                            if b == before.len() {
                                assert(before[a] == kept@[a]);
                                if before[a].id == field.id {
                                    assert(has_id(before, field.id));
                                }
                            } else {
                                assert(before[a] == kept@[a]);
                                assert(before[b] == kept@[b]);
                            }
                        }
                    }
                    assert(is_last_with_id(fields@, field)) by {
                        assert(fields@[n - 1] == field);
                        assert forall|l: int| n - 1 < l < fields@.len()
                            implies (#[trigger] fields@[l]).id != field.id by {
                            if fields@[l].id == field.id {
                                assert(tail[l - n] == fields@[l]);
                                assert(has_id(tail, field.id));
                            }
                        }
                    }
                    assert forall|k: int| 0 <= k < kept@.len()
                        implies is_last_with_id(fields@, #[trigger] kept@[k]) by {
                        if k < before.len() {
                            assert(before[k] == kept@[k]);
                        }
                    }
                }
            }
            assert(forall|id: i32| has_id(kept@, id) <==> has_id(longer, id));
            proof {
                assert(longer.drop_first() =~= tail);
                assert(longer[0] == field);
                let chosen = last_of_each_id(tail);
                assert(known == has_id(tail, field.id));
                if !known {
                    assert(last_of_each_id(longer) == seq![field] + chosen);
                    assert forall|k: int| 0 <= k < kept@.len() implies #[trigger] kept@[k]
                        == last_of_each_id(longer)[kept@.len() - 1 - k] by {
                        if k < before.len() {
                            assert(kept@[k] == before[k]);
                            assert(before[k] == chosen[before.len() - 1 - k]);
                        }
                    }
                } else {
                    assert(last_of_each_id(longer) == chosen);
                }
            }
        }
        assert(fields@.subrange(0, fields@.len() as int) =~= fields@);
        let ghost reversed = kept@;
        let ghost n = reversed.len() as int;
        let mut ordered: Vec<Field> = Vec::new();
        let mut builders: Vec<StatisticsBuilder> = Vec::new();
        while kept.len() > 0
            invariant
                n == reversed.len(),
                kept@.len() + ordered@.len() == n,
                kept@ == reversed.take(kept@.len() as int),
                builders@.len() == ordered@.len(),
                forall|k: int| 0 <= k < ordered@.len() ==> #[trigger] ordered@[k]
                    == reversed[n - 1 - k],
                forall|k: int|
                    0 <= k < builders@.len() ==> (#[trigger] builders@[k]).wf()
                        && builders@[k].data_type() == ordered@[k].data_type
                        && builders@[k].null_counts().len() == 0,
            decreases kept@.len(),
        {
            let ghost m = kept@.len() as int;
            let field = kept.pop().unwrap();
            assert(kept@ =~= reversed.take(m - 1));
            builders.push(StatisticsBuilder::new(&field.data_type));
            ordered.push(field);
        }
        proof {
            assert forall|a: int, b: int| 0 <= a < b < ordered@.len()
                implies (#[trigger] ordered@[a]).id != (#[trigger] ordered@[b]).id by {
                assert(reversed[n - 1 - b].id != reversed[n - 1 - a].id);
            }
            assert forall|id: i32| has_id(ordered@, id) <==> has_id(fields@, id) by {
                if has_id(ordered@, id) {
                    let k = choose|k: int| 0 <= k < ordered@.len() && (#[trigger] ordered@[k]).id
                        == id;
                    assert(reversed[n - 1 - k].id == id);
                    assert(has_id(reversed, id));
                }
                if has_id(fields@, id) {
                    assert(has_id(reversed, id));
                    let k = choose|k: int| 0 <= k < reversed.len() && (#[trigger] reversed[k]).id
                        == id;
                    assert(ordered@[n - 1 - k].id == id);
                }
            }
            assert forall|k: int| 0 <= k < ordered@.len()
                implies is_last_with_id(fields@, #[trigger] ordered@[k]) by {
                assert(is_last_with_id(fields@, reversed[n - 1 - k]));
            }
            assert(ordered@ =~= last_of_each_id(fields@)) by {
                assert forall|k: int| 0 <= k < ordered@.len() implies ordered@[k]
                    == last_of_each_id(fields@)[k] by {
                    assert(ordered@[k] == reversed[n - 1 - k]);
                }
            }
        }
        StatisticsCollector { num_rows: new_row_counts(), fields: ordered, builders }
    }

    /// The builder of the field `field_id`, or nothing if the collector was
    /// made without that field. What is appended through the builder is
    /// appended in the collector, and nothing else of it changes.
    pub fn get_builder(&mut self, field_id: i32) -> (builder: Option<&mut StatisticsBuilder>)
        ensures
            final(self).row_counts() == old(self).row_counts(),
            final(self).fields() == old(self).fields(),
            match builder {
                Some(b) => {
                    let k = first_with_id(old(self).fields(), field_id);
                    &&& 0 <= k < old(self).fields().len()
                    &&& k < old(self).builders().len()
                    &&& *b == old(self).builders()[k]
                    &&& final(self).builders() == old(self).builders().update(k, *final(b))
                },
                None => {
                    let k = first_with_id(old(self).fields(), field_id);
                    &&& k >= old(self).fields().len() || k >= old(self).builders().len()
                    &&& final(self).builders() == old(self).builders()
                },
            },
    {
        let mut k: usize = 0;
        while k < self.fields.len() && self.fields[k].id != field_id
            invariant
                k <= self.fields@.len(),
                forall|j: int| 0 <= j < k ==> (#[trigger] self.fields@[j]).id != field_id,
            decreases self.fields@.len() - k,
        {
            k += 1;
        }
        proof {
            lemma_first_with_id(self.fields@, field_id, k as int);
        }
        if k < self.fields.len() && k < self.builders.len() {
            Some(&mut self.builders[k])
        } else {
            None
        }
    }

    /// Appends the number of rows of one chunk.
    pub fn append_num_values(&mut self, num_rows: i64)
        ensures
            final(self).row_counts() == old(self).row_counts().push(num_rows),
            final(self).fields() == old(self).fields(),
            final(self).builders() == old(self).builders(),
    {
        append_row_count(&mut self.num_rows, num_rows)
    }

    /// Makes the table of all statistics collected, and leaves the collector
    /// without rows. Fails, and leaves the collector as it is, if some field
    /// has fewer or more rows than there are row counts; the error names the
    /// first such field.
    pub fn finish(&mut self) -> (result: Result<StatisticsTable, StatisticsError>)
        requires
            old(self).wf(),
        ensures
            final(self).wf(),
            final(self).fields() == old(self).fields(),
            result is Ok <==> old(self).aligned(),
            match result {
                Ok(table) => {
                    &&& old(self).aligned()
                    &&& table.num_values@ == old(self).row_counts()
                    &&& table.fields@.len() == old(self).fields().len()
                    &&& forall|k: int|
                        0 <= k < table.fields@.len() ==> {
                            let columns = #[trigger] table.fields@[k];
                            &&& columns.field_id == old(self).fields()[k].id
                            &&& columns.data_type == old(self).fields()[k].data_type
                            &&& columns.null_count@ == old(self).builders()[k].null_counts()
                            &&& scalar_views(columns.min_value@)
                                == old(self).builders()[k].min_values()
                            &&& scalar_views(columns.max_value@)
                                == old(self).builders()[k].max_values()
                        }
                    &&& final(self).row_counts().len() == 0
                    &&& forall|k: int|
                        0 <= k < final(self).builders().len()
                            ==> (#[trigger] final(self).builders()[k]).null_counts().len() == 0
                },
                Err(e) => {
                    &&& *final(self) == *old(self)
                    &&& exists|k: int| #[trigger]
                        old(self).first_misaligned(k) && e == (StatisticsError::Misaligned {
                            field_id: old(self).fields()[k].id,
                            expected: old(self).row_counts().len() as usize,
                            found: old(self).builders()[k].null_counts().len() as usize,
                        })
                },
            },
    {
        let expected = row_counts_len(&self.num_rows);
        let mut k: usize = 0;
        while k < self.builders.len()
            invariant
                *self == *old(self),
                self.wf(),
                k <= self.builders@.len(),
                expected == self.row_counts().len(),
                forall|j: int|
                    0 <= j < k ==> (#[trigger] self.builders@[j]).null_counts().len() == expected,
            decreases self.builders@.len() - k,
        {
            let found = self.builders[k].len();
            if found != expected {
                assert(self.first_misaligned(k as int));
                return Err(
                    StatisticsError::Misaligned { field_id: self.fields[k].id, expected, found },
                );
            }
            k += 1;
        }
        let num_values = take_row_counts(&mut self.num_rows);
        let mut columns: Vec<FieldStatistics> = Vec::new();
        let mut k: usize = 0;
        while k < self.builders.len()
            invariant
                k <= self.builders@.len(),
                self.fields@ == old(self).fields@,
                self.builders@.len() == old(self).builders@.len(),
                self.builders@.len() == self.fields@.len(),
                old(self).wf(),
                row_counts(self.num_rows).len() == 0,
                columns@.len() == k,
                forall|j: int|
                    k <= j < self.builders@.len() ==> #[trigger] self.builders@[j]
                        == old(self).builders@[j],
                forall|j: int|
                    0 <= j < k ==> (#[trigger] self.builders@[j]).wf()
                        && self.builders@[j].data_type()
                        == self.fields@[j].data_type && self.builders@[j].null_counts().len() == 0,
                forall|j: int|
                    0 <= j < k ==> {
                        let column = #[trigger] columns@[j];
                        &&& column.field_id == old(self).fields@[j].id
                        &&& column.data_type == old(self).fields@[j].data_type
                        &&& column.null_count@ == old(self).builders@[j].null_counts()
                        &&& scalar_views(column.min_value@) == old(self).builders@[j].min_values()
                        &&& scalar_views(column.max_value@) == old(self).builders@[j].max_values()
                    },
            decreases self.builders@.len() - k,
        {
            let field_id = self.fields[k].id;
            assert(old(self).builders@[k as int].wf());
            let column = self.builders[k].finish(field_id);
            columns.push(column);
            k += 1;
        }
        Ok(StatisticsTable { num_values, fields: columns })
    }
}

} // verus!
