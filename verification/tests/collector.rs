use lance::collector::{
    Field, FieldStatistics, StatisticsBuilder, StatisticsCollector, StatisticsTable,
};
use lance::statistics::{StatisticsError, StatisticsRow};
use lance::value::{DataType, Number, Scalar};

fn field(id: i32, name: &str, data_type: DataType, nullable: bool) -> Field {
    Field { id, name: name.to_string(), data_type, nullable }
}

fn int_bound(v: i128) -> Option<Scalar> {
    Some(Scalar::Number(Number::Integer(v)))
}

fn text_bound(s: &str) -> Option<Scalar> {
    Some(Scalar::Bytes(s.as_bytes().to_vec()))
}

#[test]
fn test_stats_collector() {
    let fields = vec![field(0, "a", DataType::Int32, false), field(1, "b", DataType::Utf8, true)];
    let mut collector = StatisticsCollector::new(fields);

    // Collect stats for a
    let builder = collector.get_builder(0).unwrap();
    builder.append(StatisticsRow { null_count: 2, min_value: int_bound(1), max_value: int_bound(3) });
    builder.append(StatisticsRow { null_count: 0, min_value: None, max_value: None });

    // If we try to finish at this point, it will error since we don't have
    // stats for b yet.
    assert!(collector.finish().is_err());

    // Collect stats for b
    let builder = collector.get_builder(1).unwrap();
    builder.append(StatisticsRow {
        null_count: 6,
        min_value: text_bound("aaa"),
        max_value: text_bound("bbb"),
    });
    builder.append(StatisticsRow { null_count: 0, min_value: None, max_value: None });

    collector.append_num_values(42);
    collector.append_num_values(64);

    // Now we can finish
    let table = collector.finish().unwrap();

    let expected = StatisticsTable {
        num_values: vec![42, 64],
        fields: vec![
            FieldStatistics {
                field_id: 0,
                data_type: DataType::Int32,
                null_count: vec![2, 0],
                min_value: vec![int_bound(1), None],
                max_value: vec![int_bound(3), None],
            },
            FieldStatistics {
                field_id: 1,
                data_type: DataType::Utf8,
                null_count: vec![6, 0],
                min_value: vec![text_bound("aaa"), None],
                max_value: vec![text_bound("bbb"), None],
            },
        ],
    };
    assert_eq!(table, expected);
}

#[test]
fn finish_names_the_first_misaligned_field() {
    let fields = vec![field(4, "x", DataType::Int64, true), field(9, "y", DataType::Float32, true)];
    let mut collector = StatisticsCollector::new(fields);
    collector.append_num_values(10);
    collector
        .get_builder(4)
        .unwrap()
        .append(StatisticsRow { null_count: 1, min_value: int_bound(0), max_value: int_bound(5) });
    assert_eq!(
        collector.finish(),
        Err(StatisticsError::Misaligned { field_id: 9, expected: 1, found: 0 })
    );
    // A field with more rows than there are row counts is refused too.
    let y = collector.get_builder(9).unwrap();
    y.append(StatisticsRow { null_count: 0, min_value: None, max_value: None });
    y.append(StatisticsRow { null_count: 3, min_value: None, max_value: None });
    assert_eq!(
        collector.finish(),
        Err(StatisticsError::Misaligned { field_id: 9, expected: 1, found: 2 })
    );
    collector.append_num_values(20);
    collector
        .get_builder(4)
        .unwrap()
        .append(StatisticsRow { null_count: 0, min_value: int_bound(-1), max_value: int_bound(1) });
    let table = collector.finish().unwrap();
    assert_eq!(table.num_values, vec![10, 20]);
    assert_eq!(table.fields[0].null_count, vec![1, 0]);
    assert_eq!(table.fields[0].min_value, vec![int_bound(0), int_bound(-1)]);
    assert_eq!(table.fields[1].null_count, vec![0, 3]);
}

#[test]
fn finish_leaves_the_collector_empty() {
    let mut collector = StatisticsCollector::new(vec![field(1, "a", DataType::Int8, false)]);
    collector.append_num_values(3);
    collector
        .get_builder(1)
        .unwrap()
        .append(StatisticsRow { null_count: 0, min_value: int_bound(1), max_value: int_bound(2) });
    assert!(collector.finish().is_ok());
    assert_eq!(collector.get_builder(1).unwrap().len(), 0);
    let table = collector.finish().unwrap();
    assert_eq!(table.num_values, Vec::<i64>::new());
    assert_eq!(table.fields.len(), 1);
    assert_eq!(table.fields[0].null_count, Vec::<u32>::new());
}

#[test]
fn unknown_field_has_no_builder() {
    let mut collector = StatisticsCollector::new(vec![field(1, "a", DataType::Int8, false)]);
    assert!(collector.get_builder(2).is_none());
    assert!(collector.get_builder(1).is_some());
}

#[test]
fn last_field_of_an_id_gets_the_builder() {
    let fields = vec![
        field(1, "first", DataType::Int8, false),
        field(2, "other", DataType::Utf8, false),
        field(1, "second", DataType::Float64, false),
    ];
    let mut collector = StatisticsCollector::new(fields);
    assert_eq!(collector.get_builder(1).unwrap().field_type(), DataType::Float64);
    let table = collector.finish().unwrap();
    assert_eq!(table.fields.len(), 2);
    assert_eq!(table.fields[0].field_id, 2);
    assert_eq!(table.fields[1].field_id, 1);
}

#[test]
fn builder_counts_its_rows() {
    let mut builder = StatisticsBuilder::new(&DataType::UInt16);
    assert_eq!(builder.len(), 0);
    builder.statistics_appender(StatisticsRow {
        null_count: 7,
        min_value: int_bound(1),
        max_value: None,
    });
    builder.append(StatisticsRow { null_count: 8, min_value: None, max_value: int_bound(2) });
    assert_eq!(builder.len(), 2);
    let columns = builder.finish(12);
    assert_eq!(
        columns,
        FieldStatistics {
            field_id: 12,
            data_type: DataType::UInt16,
            null_count: vec![7, 8],
            min_value: vec![int_bound(1), None],
            max_value: vec![None, int_bound(2)],
        }
    );
    assert_eq!(builder.len(), 0);
}

#[test]
fn builder_accepts_bounds_of_its_type() {
    let builder = StatisticsBuilder::new(&DataType::Int8);
    let row = |min, max| StatisticsRow { null_count: 0, min_value: min, max_value: max };
    assert!(builder.accepts(&row(None, None)));
    assert!(builder.accepts(&row(int_bound(-128), int_bound(127))));
    assert!(!builder.accepts(&row(int_bound(-129), None)));
    assert!(!builder.accepts(&row(None, text_bound("a"))));
    let builder = StatisticsBuilder::new(&DataType::Binary);
    assert!(builder.accepts(&row(text_bound("a"), None)));
    assert!(!builder.accepts(&row(int_bound(1), None)));
}
