use std::collections::HashMap;

use databend_plan::range_filter::{
    column_indices, input_domains, input_statistics_fit, may_match, statistics_fit,
    statistics_to_domain, ColumnStatistics, DataType, Domain,
    NullableDomain, NumberDataType, NumberDomain, NumberScalar, Scalar, SimpleDomain,
    StatisticsOfColumns, StringDomain,
};

fn stat(min: Scalar, max: Scalar, null_count: u64) -> ColumnStatistics {
    ColumnStatistics { min, max, null_count, in_memory_size: 0, distinct_of_values: None }
}

#[test]
fn no_statistics_gives_full_domain() {
    let d = statistics_to_domain(None, &DataType::Number(NumberDataType::Int32));
    assert_eq!(d, Domain::Full(DataType::Number(NumberDataType::Int32)));
}

#[test]
fn null_bound_gives_null_only() {
    let s = stat(Scalar::Null, Scalar::Number(NumberScalar::Int32(3)), 5);
    let d = statistics_to_domain(Some(&s), &DataType::Number(NumberDataType::Int32));
    assert_eq!(d, Domain::Nullable(NullableDomain { has_null: true, value: None }));
}

#[test]
fn number_statistics_give_range() {
    let s = stat(Scalar::Number(NumberScalar::Int32(-4)), Scalar::Number(NumberScalar::Int32(10)), 0);
    let d = statistics_to_domain(Some(&s), &DataType::Number(NumberDataType::Int32));
    assert_eq!(d, Domain::Number(NumberDomain::Int32(SimpleDomain { min: -4, max: 10 })));
    let s = stat(Scalar::Number(NumberScalar::UInt8(1)), Scalar::Number(NumberScalar::UInt8(200)), 0);
    let d = statistics_to_domain(Some(&s), &DataType::Number(NumberDataType::UInt8));
    assert_eq!(d, Domain::Number(NumberDomain::UInt8(SimpleDomain { min: 1, max: 200 })));
    let s = stat(
        Scalar::Number(NumberScalar::Float64(1.5f64.to_bits())),
        Scalar::Number(NumberScalar::Float64(2.5f64.to_bits())),
        0,
    );
    let d = statistics_to_domain(Some(&s), &DataType::Number(NumberDataType::Float64));
    assert_eq!(
        d,
        Domain::Number(NumberDomain::Float64(SimpleDomain {
            min: 1.5f64.to_bits(),
            max: 2.5f64.to_bits()
        }))
    );
}

#[test]
fn string_timestamp_date_statistics_give_ranges() {
    let s = stat(Scalar::String(b"abc".to_vec()), Scalar::String(b"xyz".to_vec()), 0);
    let d = statistics_to_domain(Some(&s), &DataType::String);
    assert_eq!(
        d,
        Domain::String(StringDomain { min: b"abc".to_vec(), max: Some(b"xyz".to_vec()) })
    );
    let s = stat(Scalar::Timestamp(100), Scalar::Timestamp(200), 0);
    let d = statistics_to_domain(Some(&s), &DataType::Timestamp);
    assert_eq!(d, Domain::Timestamp(SimpleDomain { min: 100, max: 200 }));
    let s = stat(Scalar::Date(-1), Scalar::Date(7), 0);
    let d = statistics_to_domain(Some(&s), &DataType::Date);
    assert_eq!(d, Domain::Date(SimpleDomain { min: -1, max: 7 }));
}

#[test]
fn nullable_statistics_wrap_inner_domain() {
    let s = stat(Scalar::Number(NumberScalar::Int64(1)), Scalar::Number(NumberScalar::Int64(2)), 3);
    let ty = DataType::Nullable(Box::new(DataType::Number(NumberDataType::Int64)));
    let d = statistics_to_domain(Some(&s), &ty);
    assert_eq!(
        d,
        Domain::Nullable(NullableDomain {
            has_null: true,
            value: Some(Box::new(Domain::Number(NumberDomain::Int64(SimpleDomain {
                min: 1,
                max: 2
            }))))
        })
    );
    let s = stat(Scalar::Date(1), Scalar::Date(2), 0);
    let ty = DataType::Nullable(Box::new(DataType::Date));
    let d = statistics_to_domain(Some(&s), &ty);
    assert_eq!(
        d,
        Domain::Nullable(NullableDomain {
            has_null: false,
            value: Some(Box::new(Domain::Date(SimpleDomain { min: 1, max: 2 })))
        })
    );
}

#[test]
fn other_types_give_full_domain() {
    let s = stat(Scalar::Boolean(false), Scalar::Boolean(true), 0);
    let d = statistics_to_domain(Some(&s), &DataType::Boolean);
    assert_eq!(d, Domain::Full(DataType::Boolean));
    let ty = DataType::Array(Box::new(DataType::String));
    let d = statistics_to_domain(Some(&s), &ty);
    assert_eq!(d, Domain::Full(DataType::Array(Box::new(DataType::String))));
}

#[test]
fn column_indices_take_last_position() {
    let leaves: Vec<String> = vec!["a".to_string(), "b".to_string(), "a".to_string()];
    let idx = column_indices(&leaves);
    assert_eq!(idx.get(&"a".to_string()), Some(&2));
    assert_eq!(idx.get(&"b".to_string()), Some(&1));
    assert_eq!(idx.get(&"c".to_string()), None);
}

#[test]
fn input_domains_look_up_statistics_by_index() {
    let leaves: Vec<String> = vec!["a".to_string(), "b".to_string()];
    let idx = column_indices(&leaves);
    let mut stats: StatisticsOfColumns = HashMap::new();
    stats.insert(
        1,
        stat(Scalar::Number(NumberScalar::UInt16(3)), Scalar::Number(NumberScalar::UInt16(9)), 0),
    );
    let refs = vec![
        ("a".to_string(), DataType::Number(NumberDataType::UInt16)),
        ("b".to_string(), DataType::Number(NumberDataType::UInt16)),
        ("c".to_string(), DataType::String),
    ];
    let domains = input_domains(&idx, &refs, &stats);
    assert_eq!(domains.len(), 3);
    assert_eq!(domains[0], ("a".to_string(), Domain::Full(DataType::Number(NumberDataType::UInt16))));
    assert_eq!(
        domains[1],
        (
            "b".to_string(),
            Domain::Number(NumberDomain::UInt16(SimpleDomain { min: 3, max: 9 }))
        )
    );
    assert_eq!(domains[2], ("c".to_string(), Domain::Full(DataType::String)));
}

#[test]
fn only_constant_false_rules_a_block_out() {
    assert!(!may_match(Some(&Scalar::Boolean(false))));
    assert!(may_match(Some(&Scalar::Boolean(true))));
    assert!(may_match(Some(&Scalar::Null)));
    assert!(may_match(None));
}

#[test]
fn statistics_fit_checks_types() {
    let ints = stat(Scalar::Number(NumberScalar::Int32(1)), Scalar::Number(NumberScalar::Int32(2)), 0);
    assert!(statistics_fit(Some(&ints), &DataType::Number(NumberDataType::Int32)));
    assert!(!statistics_fit(Some(&ints), &DataType::Number(NumberDataType::Int64)));
    assert!(!statistics_fit(Some(&ints), &DataType::String));
    assert!(!statistics_fit(
        Some(&ints),
        &DataType::Nullable(Box::new(DataType::Date))
    ));
    assert!(statistics_fit(Some(&ints), &DataType::Boolean));
    assert!(statistics_fit(None, &DataType::String));
    let nulls = stat(Scalar::Null, Scalar::Null, 2);
    assert!(statistics_fit(Some(&nulls), &DataType::String));
}

#[test]
fn input_statistics_fit_checks_referenced_columns() {
    let leaves: Vec<String> = vec!["a".to_string()];
    let idx = column_indices(&leaves);
    let mut stats: StatisticsOfColumns = HashMap::new();
    stats.insert(0, stat(Scalar::Date(1), Scalar::Date(2), 0));
    let good = vec![("a".to_string(), DataType::Date)];
    let bad = vec![("a".to_string(), DataType::Timestamp)];
    let unknown = vec![("z".to_string(), DataType::Timestamp)];
    assert!(input_statistics_fit(&idx, &good, &stats));
    assert!(!input_statistics_fit(&idx, &bad, &stats));
    assert!(input_statistics_fit(&idx, &unknown, &stats));
}
