use aionfm::error::AionError;
use aionfm::grouping::{field, group_rows, series_key, SeriesGroups};
use aionfm::loader::{
    first_index, load_csv_table, unsupported_format, CsvSchema, DataFormat, LocalDataLoader,
};
use aionfm::series::SeriesBuilder;

fn strings(items: &[&str]) -> Vec<String> {
    items.iter().map(|s| s.to_string()).collect()
}

#[test]
fn loads_grouped_csv_series_with_covariates() {
    let csv = "timestamp,entity_id,target,value,covariate_temperature\n2026-01-01,store_1,demand,10,70\n2026-01-02,store_1,demand,11,71";
    let (schema, records) = load_csv_table(csv.as_bytes(), &vec![]).unwrap();
    assert_eq!(schema.timestamp, Some(0));
    assert_eq!(schema.entity_id, Some(1));
    assert_eq!(schema.target, Some(2));
    assert_eq!(schema.value, Some(3));
    assert_eq!(schema.variable_name, None);
    assert_eq!(schema.covariates, vec![("temperature".to_string(), 4)]);
    assert_eq!(records.len(), 2);

    let values: Vec<f32> = records
        .iter()
        .map(|record| field(record, schema.value).unwrap().trim().parse::<f32>().unwrap())
        .collect();
    let covariates: Vec<Vec<f32>> = records
        .iter()
        .map(|record| {
            schema
                .covariates
                .iter()
                .map(|(_, i)| field(record, Some(*i)).unwrap().parse::<f32>().unwrap())
                .collect()
        })
        .collect();
    let series = group_rows(&schema, &records, &values, &covariates, f32::NAN);
    assert_eq!(series.len(), 1);
    assert_eq!(series[0].entity_id, "store_1");
    assert_eq!(series[0].covariates[0].0, "temperature");
    assert_eq!(series[0].values, vec![10.0, 11.0]);
    assert_eq!(series[0].covariates[0].1, vec![70.0, 71.0]);
    assert_eq!(series[0].timestamps, vec!["2026-01-01".to_string(), "2026-01-02".to_string()]);
}

#[test]
fn csv_bytes_parse_into_header_and_records() {
    let (schema, records) = load_csv_table(b"Value,\"id\"\n1,\"a,b\"\n2,c\n", &vec![]).unwrap();
    assert_eq!(schema.value, Some(0));
    assert_eq!(schema.entity_id, Some(1));
    assert_eq!(records, vec![strings(&["1", "a,b"]), strings(&["2", "c"])]);
    match load_csv_table(b"value,b\n1\n", &vec![]) {
        Err(AionError::Validation(m)) => assert!(!m.is_empty() && !m.starts_with("CSV requires")),
        _ => panic!("expected a parse error"),
    }
    // The header row is resolved before any record is read.
    match load_csv_table(b"a,b\n1\n", &vec![]) {
        Err(AionError::Validation(m)) => assert_eq!(
            m,
            "CSV requires a value column named value, target_value, y, or selected_columns entry"
        ),
        _ => panic!("expected a missing value column"),
    }
    match load_csv_table(b"a,b\n1,2\n", &vec![]) {
        Err(AionError::Validation(m)) => assert_eq!(
            m,
            "CSV requires a value column named value, target_value, y, or selected_columns entry"
        ),
        _ => panic!("expected a missing value column"),
    }
}

#[test]
fn rows_group_by_entity_then_target_in_key_order() {
    let headers = strings(&["id", "metric", "value"]);
    let schema = CsvSchema::from_headers(&headers, &vec![]).unwrap();
    let mut groups: SeriesGroups<i64> = SeriesGroups::new();
    assert!(groups.is_empty());
    assert_eq!(groups.push_row(&schema, &strings(&["b", "sales", "1"]), 1, &vec![], -1), 0);
    assert_eq!(groups.push_row(&schema, &strings(&["a", "sales", "2"]), 2, &vec![], -1), 0);
    assert_eq!(groups.push_row(&schema, &strings(&["b", "cost", "3"]), 3, &vec![], -1), 1);
    assert_eq!(groups.push_row(&schema, &strings(&["b", "sales", "4"]), 4, &vec![], -1), 2);
    assert_eq!(groups.push_row(&schema, &strings(&["  ", "", "5"]), 5, &vec![], -1), 3);
    assert_eq!(groups.len(), 4);
    let series = groups.finish(-1);
    let keys: Vec<(String, String)> = series.iter().map(|s| (s.entity_id.clone(), s.target.clone())).collect();
    assert_eq!(
        keys,
        vec![
            ("a".to_string(), "sales".to_string()),
            ("b".to_string(), "cost".to_string()),
            ("b".to_string(), "sales".to_string()),
            ("default".to_string(), "value".to_string()),
        ]
    );
    assert_eq!(series[2].values, vec![1, 4]);
    assert_eq!(series[2].timestamps, vec![String::new(), String::new()]);
}

#[test]
fn row_keys_fall_back_to_variable_name_then_defaults() {
    let headers = strings(&["entity", "target", "variable", "value"]);
    let schema = CsvSchema::from_headers(&headers, &vec![]).unwrap();
    assert_eq!(series_key(&schema, &strings(&["e", "t", "v", "1"])), ("e".to_string(), "t".to_string()));
    assert_eq!(series_key(&schema, &strings(&["e", " ", "v", "1"])), ("e".to_string(), "v".to_string()));
    assert_eq!(series_key(&schema, &strings(&["", "", "", "1"])), ("default".to_string(), "value".to_string()));
    assert_eq!(series_key(&schema, &strings(&["e"])), ("e".to_string(), "value".to_string()));
    assert_eq!(field(&strings(&["a", " b "]), Some(1)), Some(" b "));
    assert_eq!(field(&strings(&["a"]), Some(3)), None);
    assert_eq!(field(&strings(&["a"]), None), None);
}

#[test]
fn covariate_columns_are_padded_and_cut_to_the_values() {
    let mut builder: SeriesBuilder<i32> = SeriesBuilder::new("e".to_string(), "t".to_string());
    builder.push_value(Some("d1"), 1, 0);
    builder.push_covariate("b", 10, 0);
    builder.push_value(None, 2, 0);
    builder.push_value(Some("d3"), 3, 0);
    builder.push_covariate("a", 30, 0);
    builder.push_covariate("b", 31, 0);
    builder.push_covariate("b", 32, 0);
    let parts = builder.finish(-9);
    assert_eq!(parts.values, vec![1, 2, 3]);
    assert_eq!(parts.timestamps, vec!["d1".to_string(), String::new(), "d3".to_string()]);
    assert_eq!(parts.covariates, vec![("a".to_string(), vec![0, 0, 30]), ("b".to_string(), vec![10, 0, 31])]);
}

#[test]
fn headers_match_after_trimming_and_lowering() {
    let headers = strings(&[" Date ", "SERIES_ID", "Metric", " Y", "Covariate_Price", "extra", "covariate_covariate_x"]);
    let schema = CsvSchema::from_headers(&headers, &strings(&["EXTRA"])).unwrap();
    assert_eq!(schema.timestamp, Some(0));
    assert_eq!(schema.entity_id, Some(1));
    assert_eq!(schema.variable_name, Some(2));
    assert_eq!(schema.target, None);
    assert_eq!(schema.value, Some(3));
    assert_eq!(
        schema.covariates,
        vec![("Covariate_Price".to_string(), 4), ("extra".to_string(), 5), ("x".to_string(), 6)]
    );
}

#[test]
fn value_falls_back_to_first_selected_column_alphabetically() {
    let headers = strings(&["sales", "amount", "id"]);
    let schema = CsvSchema::from_headers(&headers, &strings(&["sales", "amount", "missing"])).unwrap();
    assert_eq!(schema.value, Some(1));
    assert_eq!(schema.entity_id, Some(2));
    assert_eq!(schema.covariates, vec![("sales".to_string(), 0)]);
    match CsvSchema::from_headers(&headers, &vec![]) {
        Err(AionError::Validation(m)) => assert_eq!(
            m,
            "CSV requires a value column named value, target_value, y, or selected_columns entry"
        ),
        _ => panic!("expected a validation error"),
    }
}

#[test]
fn later_duplicate_headers_win() {
    let normalized = strings(&["time", "value", "time"]);
    assert_eq!(first_index(&normalized, &["timestamp", "time"]), Some(2));
    assert_eq!(first_index(&normalized, &["date"]), None);
}

#[test]
fn unsupported_formats_are_reported() {
    match unsupported_format(DataFormat::Parquet, "/data/x.parquet") {
        AionError::Unsupported(m) => assert_eq!(m, "Parquet loading is not implemented yet for /data/x.parquet"),
        _ => panic!("expected an unsupported error"),
    }
    assert!(LocalDataLoader.supports(DataFormat::Csv));
    assert!(!LocalDataLoader.supports(DataFormat::ZippedCsv));
}

#[test]
fn grouped_rows_keep_each_keys_values_in_row_order() {
    let headers = strings(&["entity_id", "value", "covariate_x"]);
    let schema = CsvSchema::from_headers(&headers, &vec![]).unwrap();
    let records = vec![
        strings(&["b", "1", "7"]),
        strings(&["a", "2", ""]),
        strings(&["b", "3", "8"]),
        strings(&["a", "4", "9"]),
    ];
    let series = group_rows(&schema, &records, &vec![1, 2, 3, 4], &vec![vec![7], vec![0], vec![8], vec![9]], -1);
    assert_eq!(series.len(), 2);
    assert_eq!((series[0].entity_id.as_str(), series[0].target.as_str()), ("a", "value"));
    assert_eq!(series[0].values, vec![2, 4]);
    assert_eq!(series[0].covariates, vec![("x".to_string(), vec![0, 9])]);
    assert_eq!((series[1].entity_id.as_str(), series[1].target.as_str()), ("b", "value"));
    assert_eq!(series[1].values, vec![1, 3]);
    assert_eq!(series[1].covariates, vec![("x".to_string(), vec![7, 8])]);
}
