use rpsl_reader::ColumnData;
use rpsl_reader::ColumnType;
use rpsl_reader::RpslError;
use rpsl_reader::read_rpsl_with_schema;

fn inetnum_schema() -> Vec<(String, ColumnType)> {
    vec![
        ("iprange".to_string(), ColumnType::Text),
        ("members".to_string(), ColumnType::TextList),
    ]
}

#[test]
fn duplicate_single_value_is_latched() {
    let schema = inetnum_schema();
    let input = b"iprange: 10.0.0.0/8\niprange: 10.1.0.0/16\n\n";
    let err = read_rpsl_with_schema(input, &schema).unwrap_err();
    match err {
        RpslError::DuplicateSingleValue { attr, row } => {
            assert_eq!(attr, "iprange");
            assert_eq!(row, 0);
        }
        other => panic!("unexpected error: {:?}", other),
    }
}

#[test]
fn duplicate_in_second_object_names_row_one() {
    let schema = inetnum_schema();
    let input = b"iprange: 10.0.0.0/8\n\niprange: a\niprange: b\n\n";
    let err = read_rpsl_with_schema(input, &schema).unwrap_err();
    match err {
        RpslError::DuplicateSingleValue { attr, row } => {
            assert_eq!(attr, "iprange");
            assert_eq!(row, 1);
        }
        other => panic!("unexpected error: {:?}", other),
    }
}

#[test]
fn missing_list_column_yields_empty_list() {
    let schema = inetnum_schema();
    let input = b"iprange: 10.0.0.0/8\n\n";
    let table = read_rpsl_with_schema(input, &schema).unwrap();
    assert_eq!(table.columns.len(), 2);
    assert_eq!(table.columns[0].name, "iprange");
    match &table.columns[0].data {
        ColumnData::Text(cells) => {
            assert_eq!(cells.len(), 1);
            assert_eq!(cells[0].as_deref(), Some("10.0.0.0/8"));
        }
        other => panic!("unexpected column data: {:?}", other),
    }
    assert_eq!(table.columns[1].name, "members");
    match &table.columns[1].data {
        ColumnData::TextList(rows) => {
            assert_eq!(rows.len(), 1);
            assert!(rows[0].is_empty());
        }
        other => panic!("unexpected column data: {:?}", other),
    }
}

#[test]
fn list_column_collects_every_occurrence_in_order() {
    let schema = inetnum_schema();
    let input = b"iprange: 10.0.0.0/8\nmembers: one\nmembers: two\n\nmembers: three\n\n";
    let table = read_rpsl_with_schema(input, &schema).unwrap();
    match &table.columns[1].data {
        ColumnData::TextList(rows) => {
            assert_eq!(rows.len(), 2);
            assert_eq!(rows[0], vec!["one".to_string(), "two".to_string()]);
            assert_eq!(rows[1], vec!["three".to_string()]);
        }
        other => panic!("unexpected column data: {:?}", other),
    }
    match &table.columns[0].data {
        ColumnData::Text(cells) => {
            assert_eq!(cells.len(), 2);
            assert_eq!(cells[0].as_deref(), Some("10.0.0.0/8"));
            assert_eq!(cells[1], None);
        }
        other => panic!("unexpected column data: {:?}", other),
    }
}

#[test]
fn absent_text_column_is_null() {
    let schema = inetnum_schema();
    let input = b"members: one\n\n";
    let table = read_rpsl_with_schema(input, &schema).unwrap();
    match &table.columns[0].data {
        ColumnData::Text(cells) => assert_eq!(cells[0], None),
        other => panic!("unexpected column data: {:?}", other),
    }
}

#[test]
fn undeclared_attributes_are_ignored() {
    let schema = inetnum_schema();
    let input = b"iprange: 10.0.0.0/8\nremarks: not in schema\n\n";
    let table = read_rpsl_with_schema(input, &schema).unwrap();
    match &table.columns[0].data {
        ColumnData::Text(cells) => assert_eq!(cells[0].as_deref(), Some("10.0.0.0/8")),
        other => panic!("unexpected column data: {:?}", other),
    }
}

#[test]
fn unsupported_schema_type_fails_before_parsing() {
    let schema = vec![
        ("iprange".to_string(), ColumnType::Text),
        ("count".to_string(), ColumnType::Other("Int64".to_string())),
    ];
    let err = read_rpsl_with_schema(b"+bad input, never read\n", &schema).unwrap_err();
    match err {
        RpslError::UnsupportedType { column, dtype } => {
            assert_eq!(column, "count");
            assert_eq!(dtype, "Int64");
        }
        other => panic!("unexpected error: {:?}", other),
    }
}

#[test]
fn parse_errors_are_wrapped() {
    let schema = inetnum_schema();
    let err = read_rpsl_with_schema(b"+bad\n", &schema).unwrap_err();
    assert!(matches!(err, RpslError::Parse(_)));
}

#[test]
fn column_order_follows_schema_not_arrival() {
    let schema = vec![
        ("b".to_string(), ColumnType::Text),
        ("a".to_string(), ColumnType::Text),
    ];
    let input = b"a: 1\nb: 2\n\n";
    let table = read_rpsl_with_schema(input, &schema).unwrap();
    assert_eq!(table.columns[0].name, "b");
    assert_eq!(table.columns[1].name, "a");
    match (&table.columns[0].data, &table.columns[1].data) {
        (ColumnData::Text(b_cells), ColumnData::Text(a_cells)) => {
            assert_eq!(b_cells[0].as_deref(), Some("2"));
            assert_eq!(a_cells[0].as_deref(), Some("1"));
        }
        other => panic!("unexpected column data: {:?}", other),
    }
}

#[test]
fn continued_value_lands_in_schema_column() {
    let schema = inetnum_schema();
    let input = b"iprange: 10.0.0.0/8\n+ and more\n\n";
    let table = read_rpsl_with_schema(input, &schema).unwrap();
    match &table.columns[0].data {
        ColumnData::Text(cells) => {
            assert_eq!(cells[0].as_deref(), Some("10.0.0.0/8 and more"));
        }
        other => panic!("unexpected column data: {:?}", other),
    }
}
