use redbase::aggregation::{AggregationResult, AggregationSet, AggregationType};
use redbase::api::ColumnFamily;
use redbase::filter::{Filter, FilterSet};

#[test]
fn test_filter_equal() {
    let mut cf = ColumnFamily::new();
    let _ = cf.put(b"row1".to_vec(), b"col1".to_vec(), b"value1".to_vec());
    let _ = cf.put(b"row1".to_vec(), b"col2".to_vec(), b"value2".to_vec());
    let _ = cf.put(b"row2".to_vec(), b"col1".to_vec(), b"value3".to_vec());

    let filter = Filter::Equal(b"value1".to_vec());
    assert_eq!(
        cf.get_with_filter(b"row1", b"col1", &filter).unwrap(),
        b"value1"
    );
    assert!(cf.get_with_filter(b"row1", b"col2", &filter).is_none());
    assert!(cf.get_with_filter(b"row2", b"col1", &filter).is_none());
}

#[test]
fn test_filter_contains() {
    let mut cf = ColumnFamily::new();
    let _ = cf.put(b"row1".to_vec(), b"col1".to_vec(), b"hello world".to_vec());
    let _ = cf.put(b"row1".to_vec(), b"col2".to_vec(), b"goodbye world".to_vec());
    let _ = cf.put(b"row2".to_vec(), b"col1".to_vec(), b"hello rust".to_vec());

    let filter = Filter::Contains(b"world".to_vec());
    assert_eq!(
        cf.get_with_filter(b"row1", b"col1", &filter).unwrap(),
        b"hello world"
    );
    assert_eq!(
        cf.get_with_filter(b"row1", b"col2", &filter).unwrap(),
        b"goodbye world"
    );
    assert!(cf.get_with_filter(b"row2", b"col1", &filter).is_none());

    let filter = Filter::Equal(b"world".to_vec());
    assert!(cf.get_with_filter(b"row1", b"col1", &filter).is_none());

    let filter = Filter::StartsWith(b"hello".to_vec());
    assert_eq!(
        cf.get_with_filter(b"row2", b"col1", &filter).unwrap(),
        b"hello rust"
    );
}

#[test]
fn test_filter_set() {
    let mut cf = ColumnFamily::new();
    let _ = cf.put(b"row1".to_vec(), b"col1".to_vec(), b"value1".to_vec());
    let _ = cf.put(b"row1".to_vec(), b"col2".to_vec(), b"value2".to_vec());
    let _ = cf.put(b"row2".to_vec(), b"col1".to_vec(), b"value3".to_vec());
    let _ = cf.put(b"row2".to_vec(), b"col2".to_vec(), b"value4".to_vec());

    let mut filter_set = FilterSet::new();
    filter_set.add_column_filter(b"col1".to_vec(), Filter::Equal(b"value1".to_vec()));

    let result = cf.scan_row_with_filter(b"row1", &filter_set);
    assert_eq!(result.len(), 1);
    assert_eq!(result[0].0, b"col1");
    assert_eq!(result[0].1.len(), 1);
    assert_eq!(result[0].1[0].1, b"value1");

    let result = cf.scan_row_with_filter(b"row2", &filter_set);
    assert_eq!(result.len(), 0);
}

#[test]
fn test_scan_with_filter_over_rows() {
    let mut cf = ColumnFamily::new();
    let _ = cf.put(b"row1".to_vec(), b"col1".to_vec(), b"value1".to_vec());
    let _ = cf.put(b"row2".to_vec(), b"col1".to_vec(), b"value3".to_vec());
    let _ = cf.put(b"row3".to_vec(), b"col1".to_vec(), b"other".to_vec());

    let mut filter_set = FilterSet::new();
    filter_set.add_column_filter(b"col1".to_vec(), Filter::StartsWith(b"value".to_vec()));

    let result = cf.scan_with_filter(b"row1", b"row3", &filter_set);
    assert_eq!(result.len(), 2);
    assert_eq!(result[0].0, b"row1");
    assert_eq!(result[0].1[0].1[0].1, b"value1");
    assert_eq!(result[1].0, b"row2");
    assert_eq!(result[1].1[0].1[0].1, b"value3");
}

#[test]
fn test_filter_timestamp_range() {
    let mut fs = FilterSet::new();
    fs.with_timestamp_range(Some(100), Some(200));
    assert!(!fs.timestamp_matches(99));
    assert!(fs.timestamp_matches(100));
    assert!(fs.timestamp_matches(150));
    assert!(fs.timestamp_matches(200));
    assert!(!fs.timestamp_matches(201));

    let mut fs = FilterSet::new();
    fs.with_timestamp_range(None, Some(50));
    assert!(fs.timestamp_matches(0));
    assert!(!fs.timestamp_matches(51));
}

#[test]
fn test_filter_combinators() {
    let and_empty = Filter::And(Vec::new());
    assert!(and_empty.matches(b"anything"));

    let or_empty = Filter::Or(Vec::new());
    assert!(!or_empty.matches(b"anything"));

    let inner = Filter::Contains(b"ell".to_vec());
    let double = Filter::Not(Box::new(Filter::Not(Box::new(Filter::Contains(
        b"ell".to_vec(),
    )))));
    assert_eq!(inner.matches(b"hello"), double.matches(b"hello"));
    assert_eq!(inner.matches(b"world"), double.matches(b"world"));

    let both = Filter::And(vec![
        Filter::StartsWith(b"he".to_vec()),
        Filter::EndsWith(b"lo".to_vec()),
    ]);
    assert!(both.matches(b"hello"));
    assert!(!both.matches(b"help"));

    let either = Filter::Or(vec![
        Filter::Equal(b"a".to_vec()),
        Filter::Equal(b"b".to_vec()),
    ]);
    assert!(either.matches(b"a"));
    assert!(either.matches(b"b"));
    assert!(!either.matches(b"c"));

    let less = Filter::LessThan(b"m".to_vec());
    assert!(less.matches(b"a"));
    assert!(!less.matches(b"z"));
    let greater = Filter::GreaterThanOrEqual(b"m".to_vec());
    assert!(greater.matches(b"m"));
    assert!(!greater.matches(b"a"));
}

#[test]
fn test_aggregation_count() {
    let mut cf = ColumnFamily::new();
    for i in 1..=5u64 {
        let _ = cf.put(
            b"row1".to_vec(),
            b"col1".to_vec(),
            format!("value{}", i).into_bytes(),
        );
    }

    let mut aggs = AggregationSet::new();
    aggs.add_aggregation(b"col1".to_vec(), AggregationType::Count);
    let result = cf.aggregate(b"row1", None, &aggs);
    assert_eq!(result.len(), 1);
    match &result[0].1 {
        AggregationResult::Count(n) => assert_eq!(*n, 5),
        _ => panic!("Expected Count aggregation result"),
    }
}

#[test]
fn test_aggregation_sum() {
    let mut cf = ColumnFamily::new();
    let _ = cf.put(b"row1".to_vec(), b"col1".to_vec(), b"10".to_vec());
    let _ = cf.put(b"row1".to_vec(), b"col2".to_vec(), b"20".to_vec());
    let _ = cf.put(b"row1".to_vec(), b"col3".to_vec(), b"30".to_vec());

    let mut aggs = AggregationSet::new();
    aggs.add_aggregation(b"col1".to_vec(), AggregationType::Sum);
    aggs.add_aggregation(b"col2".to_vec(), AggregationType::Sum);
    aggs.add_aggregation(b"col3".to_vec(), AggregationType::Sum);
    let result = cf.aggregate(b"row1", None, &aggs);
    assert_eq!(result.len(), 3);
    match &result[0].1 {
        AggregationResult::Sum(n) => assert_eq!(*n, 10),
        _ => panic!("Expected Sum aggregation result for col1"),
    }
    match &result[1].1 {
        AggregationResult::Sum(n) => assert_eq!(*n, 20),
        _ => panic!("Expected Sum aggregation result for col2"),
    }
    match &result[2].1 {
        AggregationResult::Sum(n) => assert_eq!(*n, 30),
        _ => panic!("Expected Sum aggregation result for col3"),
    }
}

#[test]
fn test_aggregation_sum_of_versions() {
    // Several versions of one column sum across the versions.
    let mut cf = ColumnFamily::new();
    let _ = cf.put(b"row1".to_vec(), b"col1".to_vec(), b"10".to_vec());
    let _ = cf.put(b"row1".to_vec(), b"col1".to_vec(), b"20".to_vec());
    let _ = cf.put(b"row1".to_vec(), b"col1".to_vec(), b"30".to_vec());

    let mut aggs = AggregationSet::new();
    aggs.add_aggregation(b"col1".to_vec(), AggregationType::Sum);
    let result = cf.aggregate(b"row1", None, &aggs);
    match &result[0].1 {
        AggregationResult::Sum(n) => assert_eq!(*n, 60),
        _ => panic!("Expected Sum aggregation result"),
    }
}

#[test]
fn test_aggregation_average() {
    let mut cf = ColumnFamily::new();
    let _ = cf.put(b"row1".to_vec(), b"col1".to_vec(), b"10".to_vec());
    let _ = cf.put(b"row1".to_vec(), b"col1".to_vec(), b"20".to_vec());
    let _ = cf.put(b"row1".to_vec(), b"col1".to_vec(), b"30".to_vec());

    let mut aggs = AggregationSet::new();
    aggs.add_aggregation(b"col1".to_vec(), AggregationType::Average);
    let result = cf.aggregate(b"row1", None, &aggs);
    match &result[0].1 {
        AggregationResult::Average(values) => {
            let mut sum: f64 = 0.0;
            for v in values {
                sum += String::from_utf8(v.clone()).unwrap().parse::<f64>().unwrap();
            }
            let mean = sum / values.len() as f64;
            assert!((mean - 20.0).abs() < f64::EPSILON);
        },
        _ => panic!("Expected Average aggregation result"),
    }
}

#[test]
fn test_aggregation_sum_float_values() {
    let mut cf = ColumnFamily::new();
    let _ = cf.put(b"row1".to_vec(), b"col1".to_vec(), b"1.5".to_vec());
    let _ = cf.put(b"row1".to_vec(), b"col1".to_vec(), b"2.5".to_vec());

    let mut aggs = AggregationSet::new();
    aggs.add_aggregation(b"col1".to_vec(), AggregationType::Sum);
    let result = cf.aggregate(b"row1", None, &aggs);
    match &result[0].1 {
        AggregationResult::SumFloat(values) => {
            let mut sum: f64 = 0.0;
            for v in values {
                sum += String::from_utf8(v.clone()).unwrap().parse::<f64>().unwrap();
            }
            assert!((sum - 4.0).abs() < f64::EPSILON);
        },
        _ => panic!("Expected a floating-point sum"),
    }
}

#[test]
fn test_aggregation_errors() {
    let mut cf = ColumnFamily::new();
    let _ = cf.put(b"row1".to_vec(), b"col1".to_vec(), b"not a number".to_vec());

    let mut aggs = AggregationSet::new();
    aggs.add_aggregation(b"col1".to_vec(), AggregationType::Sum);
    let result = cf.aggregate(b"row1", None, &aggs);
    assert_eq!(result.len(), 1);
    match &result[0].1 {
        AggregationResult::Error(msg) => assert_eq!(msg, "Non-numeric value found"),
        _ => panic!("Expected an error result"),
    }

    let mut aggs = AggregationSet::new();
    aggs.add_aggregation(b"col1".to_vec(), AggregationType::Sum);
    let result = cf.aggregate(b"row9", None, &aggs);
    match &result[0].1 {
        AggregationResult::Error(msg) => assert_eq!(msg, "Column not found"),
        _ => panic!("Expected an error result"),
    }

    let mut cf = ColumnFamily::new();
    let _ = cf.put(b"row1".to_vec(), b"col1".to_vec(), vec![0xff, 0xfe]);
    let mut aggs = AggregationSet::new();
    aggs.add_aggregation(b"col1".to_vec(), AggregationType::Average);
    let result = cf.aggregate(b"row1", None, &aggs);
    match &result[0].1 {
        AggregationResult::Error(msg) => assert_eq!(msg, "Invalid UTF-8 in value"),
        _ => panic!("Expected an error result"),
    }
}

#[test]
fn test_aggregation_min_max() {
    let mut cf = ColumnFamily::new();
    let _ = cf.put(b"row1".to_vec(), b"col1".to_vec(), b"banana".to_vec());
    let _ = cf.put(b"row1".to_vec(), b"col1".to_vec(), b"apple".to_vec());
    let _ = cf.put(b"row1".to_vec(), b"col1".to_vec(), b"cherry".to_vec());

    let mut aggs = AggregationSet::new();
    aggs.add_aggregation(b"col1".to_vec(), AggregationType::Min);
    let result = cf.aggregate(b"row1", None, &aggs);
    match &result[0].1 {
        AggregationResult::Min(v) => assert_eq!(v, b"apple"),
        _ => panic!("Expected Min aggregation result"),
    }

    let mut aggs = AggregationSet::new();
    aggs.add_aggregation(b"col1".to_vec(), AggregationType::Max);
    let result = cf.aggregate(b"row1", None, &aggs);
    match &result[0].1 {
        AggregationResult::Max(v) => assert_eq!(v, b"cherry"),
        _ => panic!("Expected Max aggregation result"),
    }
}

#[test]
fn test_filter_regex() {
    let mut cf = ColumnFamily::new();
    let _ = cf.put(b"row1".to_vec(), b"col1".to_vec(), b"user123@example.com".to_vec());
    let _ = cf.put(b"row1".to_vec(), b"col2".to_vec(), b"user456@example.org".to_vec());
    let _ = cf.put(b"row2".to_vec(), b"col1".to_vec(), b"not-an-email".to_vec());
    let _ = cf.put(b"row2".to_vec(), b"col2".to_vec(), b"12345".to_vec());

    let email = Filter::Regex("^[a-z0-9._%+-]+@[a-z0-9.-]+\\.[a-z]{2,}$".to_string());
    assert!(cf.get_with_filter(b"row1", b"col1", &email).is_some());
    assert!(cf.get_with_filter(b"row1", b"col2", &email).is_some());
    assert!(cf.get_with_filter(b"row2", b"col1", &email).is_none());
    assert!(cf.get_with_filter(b"row2", b"col2", &email).is_none());

    let digits = Filter::Regex("^\\d+$".to_string());
    assert!(cf.get_with_filter(b"row2", b"col2", &digits).is_some());
    assert!(cf.get_with_filter(b"row2", b"col1", &digits).is_none());

    let broken = Filter::Regex("[unclosed-bracket".to_string());
    assert!(cf.get_with_filter(b"row1", b"col1", &broken).is_none());

    let com = Filter::Regex("@example\\.com$".to_string());
    assert!(cf.get_with_filter(b"row1", b"col1", &com).is_some());
    assert!(cf.get_with_filter(b"row1", b"col2", &com).is_none());

    let mut filter_set = FilterSet::new();
    filter_set.add_column_filter(b"col1".to_vec(), email);
    let result = cf.scan_row_with_filter(b"row1", &filter_set);
    assert_eq!(result.len(), 1, "Expected row1 to be in the result");
}
