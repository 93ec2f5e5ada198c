use lance::statistics::{
    collect_statistics, count_nulls, is_one_chunk, max_min_null, truncated_max_min_null,
    StatisticsError, StatisticsRow,
};
use lance::truncate::BINARY_PREFIX_LENGTH;
use lance::value::{Array, DataType, Kind, Number, Scalar, Values};

fn ints(data_type: DataType, values: Vec<i128>) -> Array {
    Array::new(
        data_type,
        Values::Numbers(values.into_iter().map(|v| Some(Number::Integer(v))).collect()),
    )
}

fn floats(values: Vec<f32>) -> Array {
    Array::new(
        DataType::Float32,
        Values::Numbers(values.into_iter().map(|v| Some(Number::Float32(v.to_bits()))).collect()),
    )
}

fn doubles(values: Vec<Option<f64>>) -> Array {
    Array::new(
        DataType::Float64,
        Values::Numbers(
            values.into_iter().map(|v| v.map(|x| Number::Float64(x.to_bits()))).collect(),
        ),
    )
}

fn strings(values: Vec<Option<&str>>) -> Array {
    Array::new(
        DataType::Utf8,
        Values::Bytes(values.into_iter().map(|v| v.map(|s| s.as_bytes().to_vec())).collect()),
    )
}

fn int_bound(v: i128) -> Option<Scalar> {
    Some(Scalar::Number(Number::Integer(v)))
}

fn float_bound(v: f32) -> Option<Scalar> {
    Some(Scalar::Number(Number::Float32(v.to_bits())))
}

fn text_bound(s: &str) -> Option<Scalar> {
    Some(Scalar::Bytes(s.as_bytes().to_vec()))
}

#[test]
fn test_collect_primitive_stats() {
    let cases: Vec<(Vec<Array>, Option<Scalar>, Option<Scalar>)> = vec![
        (
            vec![ints(DataType::Int64, vec![4, 3, 7, 2]), ints(DataType::Int64, vec![-10, 3, 5])],
            int_bound(-10),
            int_bound(7),
        ),
        (
            vec![ints(DataType::Int32, vec![4, 3, 7, 2]), ints(DataType::Int32, vec![-10, 3, 5])],
            int_bound(-10),
            int_bound(7),
        ),
        (
            vec![Array::new(
                DataType::Boolean,
                Values::Numbers(vec![Some(Number::Boolean(true)), Some(Number::Boolean(false))]),
            )],
            Some(Scalar::Number(Number::Boolean(false))),
            Some(Scalar::Number(Number::Boolean(true))),
        ),
        (
            vec![ints(DataType::Date32, vec![53, 42]), ints(DataType::Date32, vec![68, 32])],
            int_bound(32),
            int_bound(68),
        ),
        (
            vec![ints(DataType::Timestamp, vec![53, 42]), ints(DataType::Timestamp, vec![68, 32])],
            int_bound(32),
            int_bound(68),
        ),
        (
            vec![ints(DataType::Duration, vec![53, 42]), ints(DataType::Duration, vec![68, 32])],
            int_bound(32),
            int_bound(68),
        ),
        (
            vec![ints(DataType::Decimal128, vec![53, 42]), ints(DataType::Decimal128, vec![68, 32])],
            int_bound(32),
            int_bound(68),
        ),
    ];

    for (source_arrays, expected_min, expected_max) in cases {
        let stats = collect_statistics(&source_arrays).unwrap();
        assert_eq!(
            stats,
            StatisticsRow { null_count: 0, min_value: expected_min, max_value: expected_max },
            "Statistics are wrong for input data: {:?}",
            source_arrays
        );
    }
}

#[test]
fn test_collect_float_stats() {
    // NaN values are ignored in statistics
    let arrays = vec![
        floats(vec![4.0f32, 3.0, f32::NAN, 2.0]),
        floats(vec![-10.0f32, 3.0, 5.0, f32::NAN]),
    ];
    let stats = collect_statistics(&arrays).unwrap();
    assert_eq!(
        stats,
        StatisticsRow { null_count: 0, min_value: float_bound(-10.0), max_value: float_bound(5.0) }
    );

    // (Negative) Infinity can be min or max.
    let arrays = vec![floats(vec![4.0f32, f32::INFINITY, f32::NEG_INFINITY])];
    let stats = collect_statistics(&arrays).unwrap();
    assert_eq!(
        stats,
        StatisticsRow {
            null_count: 0,
            min_value: float_bound(f32::NEG_INFINITY),
            max_value: float_bound(f32::INFINITY),
        }
    );

    // Zero is always positive
    let arrays = vec![floats(vec![4.0f32, -0.0])];
    let stats = collect_statistics(&arrays).unwrap();
    assert_eq!(
        stats,
        StatisticsRow { null_count: 0, min_value: float_bound(0.0f32), max_value: float_bound(4.0f32) }
    );
}

#[test]
fn test_collect_binary_stats() {
    // Whole strings are used if short enough
    let arrays = vec![
        strings(vec![Some("foo"), None, Some("bar")]),
        strings(vec![Some("yee"), Some("haw")]),
    ];
    let stats = collect_statistics(&arrays).unwrap();
    assert_eq!(
        stats,
        StatisticsRow { null_count: 1, min_value: text_bound("bar"), max_value: text_bound("yee") }
    );

    // Prefixes are used if strings are too long. Multi-byte characters are
    // not split.
    let arrays = vec![strings(vec![Some("bacteriologists🧑‍🔬"), Some("terrestial planet")])];
    let stats = collect_statistics(&arrays).unwrap();
    assert_eq!(
        stats,
        StatisticsRow {
            null_count: 0,
            // Bacteriologists is just 15 bytes, but the next character is multi-byte
            // so we truncate before.
            min_value: text_bound("bacteriologists"),
            // The last character of the 16-byte prefix is raised by one, so that
            // the bound is greater than the value.
            max_value: text_bound("terrestial planf"),
        }
    );

    // If no truncated max value exists (in the edge case where the value is
    // 0xFF up until the limit), just return nothing as max.
    let arrays = vec![Array::new(
        DataType::Binary,
        Values::Bytes(vec![Some(vec![0xFFu8; BINARY_PREFIX_LENGTH + 5])]),
    )];
    let stats = collect_statistics(&arrays).unwrap();
    assert_eq!(
        stats,
        StatisticsRow {
            null_count: 0,
            // We can truncate the minimum value, since the prefix is less than the full value
            min_value: Some(Scalar::Bytes(vec![0xFFu8; BINARY_PREFIX_LENGTH])),
            // We can't truncate the max value, so there is none
            max_value: None,
        }
    );
}

#[test]
fn test_collect_dictionary_stats() {
    // Dictionary stats are collected from the underlying values
    let dictionary_values = Values::Bytes(vec![
        None,
        Some("abc".as_bytes().to_vec()),
        Some("def".as_bytes().to_vec()),
    ]);
    let arr = Array::dictionary(DataType::Utf8, vec![Some(2), None, Some(1)], dictionary_values);
    let arrays = vec![arr];
    let stats = collect_statistics(&arrays).unwrap();
    assert_eq!(
        stats,
        StatisticsRow { null_count: 1, min_value: text_bound("abc"), max_value: text_bound("def") }
    );
}

#[test]
fn dictionary_stats_equal_plain_stats() {
    let values = vec![Some(Number::Integer(9)), None, Some(Number::Integer(-4))];
    let encoded = vec![Array::dictionary(
        DataType::Int16,
        vec![Some(0), Some(0), Some(2)],
        Values::Numbers(values.clone()),
    )];
    let plain = vec![Array::new(DataType::Int16, Values::Numbers(values))];
    let of_encoded = collect_statistics(&encoded).unwrap();
    assert_eq!(of_encoded, collect_statistics(&plain).unwrap());
    assert_eq!(
        of_encoded,
        StatisticsRow { null_count: 1, min_value: int_bound(-4), max_value: int_bound(9) }
    );
}

#[test]
fn bounds_enclose_every_number() {
    let values: Vec<i128> = vec![17, -3, 256, 0, 99, -3];
    let arrays = vec![ints(DataType::Int64, values.clone())];
    let stats = max_min_null(&arrays);
    assert_eq!(stats.min_value, int_bound(-3));
    assert_eq!(stats.max_value, int_bound(256));
    for v in values {
        assert!(-3 <= v && v <= 256);
    }
}

#[test]
fn single_number_is_both_bounds() {
    let arrays = vec![ints(DataType::UInt64, vec![u64::MAX as i128])];
    let stats = collect_statistics(&arrays).unwrap();
    assert_eq!(
        stats,
        StatisticsRow {
            null_count: 0,
            min_value: int_bound(u64::MAX as i128),
            max_value: int_bound(u64::MAX as i128),
        }
    );
}

#[test]
fn extreme_decimals_are_bounds() {
    let arrays = vec![ints(DataType::Decimal128, vec![i128::MAX, i128::MIN])];
    let stats = collect_statistics(&arrays).unwrap();
    assert_eq!(stats.min_value, int_bound(i128::MIN));
    assert_eq!(stats.max_value, int_bound(i128::MAX));
}

#[test]
fn null_count_is_exact() {
    let arrays = vec![
        Array::new(
            DataType::Int32,
            Values::Numbers(vec![None, Some(Number::Integer(5)), None, None]),
        ),
        Array::new(DataType::Int32, Values::Numbers(vec![])),
        Array::new(DataType::Int32, Values::Numbers(vec![None, Some(Number::Integer(1))])),
    ];
    let stats = collect_statistics(&arrays).unwrap();
    assert_eq!(
        stats,
        StatisticsRow { null_count: 4, min_value: int_bound(1), max_value: int_bound(5) }
    );
}

#[test]
fn all_null_chunk_has_no_bounds() {
    let arrays = vec![Array::new(DataType::Int64, Values::Numbers(vec![None, None]))];
    let stats = collect_statistics(&arrays).unwrap();
    assert_eq!(stats, StatisticsRow { null_count: 2, min_value: None, max_value: None });

    let arrays = vec![strings(vec![None])];
    let stats = collect_statistics(&arrays).unwrap();
    assert_eq!(stats, StatisticsRow { null_count: 1, min_value: None, max_value: None });
}

#[test]
fn nan_is_neither_bound_nor_null() {
    let arrays = vec![floats(vec![f32::NAN, f32::NAN])];
    let stats = collect_statistics(&arrays).unwrap();
    assert_eq!(stats, StatisticsRow { null_count: 0, min_value: None, max_value: None });

    let arrays = vec![doubles(vec![Some(f64::NAN), None, Some(-1.5), Some(-f64::NAN), Some(2.25)])];
    let stats = collect_statistics(&arrays).unwrap();
    assert_eq!(
        stats,
        StatisticsRow {
            null_count: 1,
            min_value: Some(Scalar::Number(Number::Float64((-1.5f64).to_bits()))),
            max_value: Some(Scalar::Number(Number::Float64(2.25f64.to_bits()))),
        }
    );
}

#[test]
fn negative_zero_is_reported_as_positive_zero() {
    let arrays = vec![doubles(vec![Some(-0.0), Some(3.0)])];
    let stats = collect_statistics(&arrays).unwrap();
    assert_eq!(stats.min_value, Some(Scalar::Number(Number::Float64(0))));

    let arrays = vec![floats(vec![-0.0, -3.0])];
    let stats = collect_statistics(&arrays).unwrap();
    assert_eq!(stats.min_value, float_bound(-3.0));
    assert_eq!(stats.max_value, float_bound(0.0));
}

#[test]
fn float_order_follows_the_numbers() {
    let arrays = vec![floats(vec![-1.0e-40, 1.0e-40, -2.5, 1.0e30, -1.0e30])];
    let stats = collect_statistics(&arrays).unwrap();
    assert_eq!(stats.min_value, float_bound(-1.0e30));
    assert_eq!(stats.max_value, float_bound(1.0e30));
}

#[test]
fn number_keys_and_normal_forms() {
    assert_eq!(Number::Boolean(true).key(), 1);
    assert_eq!(Number::Integer(-7).key(), -7);
    assert_eq!(Number::Float32(1.0f32.to_bits()).key(), 0x3F80_0000);
    assert_eq!(Number::Float32((-1.0f32).to_bits()).key(), -0x3F80_0000);
    assert_eq!(Number::Float64((-0.0f64).to_bits()).key(), 0);
    assert!(Number::Float32(f32::INFINITY.to_bits()).is_comparable());
    assert!(Number::Float32(f32::NEG_INFINITY.to_bits()).is_comparable());
    assert!(!Number::Float32(f32::NAN.to_bits()).is_comparable());
    assert!(!Number::Float64(f64::NAN.to_bits()).is_comparable());
    assert_eq!(Number::Float32((-0.0f32).to_bits()).normalized(), Number::Float32(0));
    assert_eq!(Number::Float64(5).normalized(), Number::Float64(5));
    assert_eq!(Number::Integer(0).normalized(), Number::Integer(0));
}

#[test]
fn binary_values_compare_by_bytes() {
    let arrays = vec![Array::new(
        DataType::Binary,
        Values::Bytes(vec![Some(vec![1, 2]), Some(vec![1]), None, Some(vec![1, 2, 0]), Some(vec![])]),
    )];
    let stats = truncated_max_min_null(&arrays);
    assert_eq!(
        stats,
        StatisticsRow {
            null_count: 1,
            min_value: Some(Scalar::Bytes(vec![])),
            max_value: Some(Scalar::Bytes(vec![1, 2, 0])),
        }
    );
}

#[test]
fn unsupported_type_is_an_error() {
    let arrays = vec![Array::new(DataType::Struct, Values::Other)];
    assert_eq!(
        collect_statistics(&arrays),
        Err(StatisticsError::UnsupportedType(DataType::Struct))
    );
    assert_eq!(DataType::List.kind(), Kind::Unsupported);
    assert_eq!(DataType::Time64.kind(), Kind::Integer);
    assert_eq!(DataType::Utf8.kind(), Kind::Text);
}

#[test]
fn float_keys_order_as_the_floats_do() {
    let singles: Vec<f32> = vec![
        f32::NEG_INFINITY,
        f32::MIN,
        -2.5,
        -1.0,
        -f32::MIN_POSITIVE,
        -1.0e-45,
        -0.0,
        0.0,
        1.0e-45,
        f32::MIN_POSITIVE,
        0.5,
        1.0,
        f32::MAX,
        f32::INFINITY,
    ];
    for a in &singles {
        for b in &singles {
            let ka = Number::Float32(a.to_bits()).key();
            let kb = Number::Float32(b.to_bits()).key();
            assert_eq!(a < b, ka < kb, "{} against {}", a, b);
            assert_eq!(a == b, ka == kb, "{} against {}", a, b);
        }
    }
    let doubles: Vec<f64> = vec![
        f64::NEG_INFINITY,
        f64::MIN,
        -1.0,
        -5.0e-324,
        -0.0,
        0.0,
        5.0e-324,
        1.0,
        f64::MAX,
        f64::INFINITY,
    ];
    for a in &doubles {
        for b in &doubles {
            let ka = Number::Float64(a.to_bits()).key();
            let kb = Number::Float64(b.to_bits()).key();
            assert_eq!(a < b, ka < kb, "{} against {}", a, b);
            assert_eq!(a == b, ka == kb, "{} against {}", a, b);
        }
    }
}

#[test]
fn chunks_are_recognised() {
    assert!(!is_one_chunk(&vec![]));
    assert!(is_one_chunk(&vec![ints(DataType::Int8, vec![-128, 127])]));
    assert!(!is_one_chunk(&vec![ints(DataType::Int8, vec![128])]));
    assert!(!is_one_chunk(&vec![ints(DataType::UInt32, vec![-1])]));
    assert!(is_one_chunk(&vec![ints(DataType::UInt64, vec![u64::MAX as i128])]));
    assert!(!is_one_chunk(&vec![ints(DataType::Int64, vec![u64::MAX as i128])]));
    assert!(!is_one_chunk(&vec![ints(DataType::Int32, vec![1]), ints(DataType::Int64, vec![1])]));
    assert!(!is_one_chunk(&vec![ints(DataType::Utf8, vec![1])]));
    assert!(!is_one_chunk(&vec![ints(DataType::Float32, vec![1])]));
    assert!(is_one_chunk(&vec![floats(vec![1.0]), floats(vec![])]));
    assert!(is_one_chunk(&vec![strings(vec![Some("a"), None])]));
    assert!(is_one_chunk(&vec![Array::new(DataType::List, Values::Other)]));
    assert!(!is_one_chunk(&vec![Array::new(DataType::Int16, Values::Other)]));
    assert!(ints(DataType::Date32, vec![i32::MIN as i128]).is_wf());
    assert!(DataType::Boolean.has_element(&Number::Boolean(true)));
    assert!(!DataType::Boolean.has_element(&Number::Integer(1)));
}

#[test]
fn nulls_are_counted_over_all_arrays() {
    let arrays = vec![
        strings(vec![None, Some("a"), None]),
        strings(vec![]),
        strings(vec![None]),
    ];
    assert_eq!(count_nulls(&arrays), Some(3));
    assert_eq!(count_nulls(&vec![floats(vec![f32::NAN])]), Some(0));
    assert_eq!(count_nulls(&vec![]), Some(0));
}

#[test]
fn dictionary_stats_equal_stats_of_its_rows() {
    let values = Values::Bytes(vec![Some(b"b".to_vec()), None, Some(b"a".to_vec())]);
    let encoded = vec![Array::dictionary(
        DataType::Binary,
        vec![Some(2), Some(0), Some(1), Some(2)],
        values,
    )];
    let rows = vec![Array::new(
        DataType::Binary,
        Values::Bytes(vec![Some(b"a".to_vec()), Some(b"b".to_vec()), None, Some(b"a".to_vec())]),
    )];
    let of_encoded = collect_statistics(&encoded).unwrap();
    assert_eq!(of_encoded, collect_statistics(&rows).unwrap());
    assert_eq!(
        of_encoded,
        StatisticsRow {
            null_count: 1,
            min_value: Some(Scalar::Bytes(b"a".to_vec())),
            max_value: Some(Scalar::Bytes(b"b".to_vec())),
        }
    );
}
