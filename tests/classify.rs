use cuex_csv::schema::{has_extension_prefix, Record, Schema, SourceError, CUSTOMER_EXTENSION_PREFIX};
use cuex_csv::source::CsvSource;

fn open(text: &str) -> (CsvSource<&[u8]>, Schema) {
    CsvSource::new(text.as_bytes(), b',').unwrap()
}

fn record_of(fields: Vec<&str>) -> csv::StringRecord {
    csv::StringRecord::from(fields)
}

#[test]
fn extension_with_empty_value_is_filtered() {
    let (mut source, schema) = open("id,name,CUEX_foo\n1,bob,\n");
    let mut record = Record::new(&schema);
    assert!(source.read_record(&mut record).unwrap());
    assert_eq!(schema.standard(&record.values), vec![("id", "1"), ("name", "bob")]);
    assert_eq!(schema.extensions(&record.values), Vec::<(&str, &str)>::new());
}

#[test]
fn extension_tag_loses_marker() {
    let (mut source, schema) = open("id,CUEX_bar\n2,hello\n");
    let mut record = Record::new(&schema);
    assert!(source.read_record(&mut record).unwrap());
    assert_eq!(schema.standard(&record.values), vec![("id", "2")]);
    assert_eq!(schema.extensions(&record.values), vec![("bar", "hello")]);
}

#[test]
fn empty_standard_values_are_filtered() {
    let (mut source, schema) = open("a,b,c\n,,x\n");
    let mut record = Record::new(&schema);
    assert!(source.read_record(&mut record).unwrap());
    assert_eq!(schema.standard(&record.values), vec![("c", "x")]);
    assert_eq!(schema.extensions(&record.values), Vec::<(&str, &str)>::new());
}

#[test]
fn empty_input_has_no_schema() {
    let result = CsvSource::new("".as_bytes(), b',');
    assert!(matches!(result, Err(SourceError::MissingHeader)));
}

#[test]
fn only_extension_columns() {
    let (mut source, schema) = open("CUEX_x,CUEX_y\n1,2\n");
    let mut record = Record::new(&schema);
    assert!(source.read_record(&mut record).unwrap());
    assert_eq!(schema.standard(&record.values), Vec::<(&str, &str)>::new());
    assert_eq!(schema.extensions(&record.values), vec![("x", "1"), ("y", "2")]);
}

#[test]
fn rows_come_in_order_then_end() {
    let (mut source, schema) = open("k,CUEX_v\n1,a\n2,b\n");
    let mut record = Record::new(&schema);
    assert!(source.read_record(&mut record).unwrap());
    assert_eq!(schema.standard(&record.values), vec![("k", "1")]);
    assert!(source.read_record(&mut record).unwrap());
    assert_eq!(schema.standard(&record.values), vec![("k", "2")]);
    assert_eq!(schema.extensions(&record.values), vec![("v", "b")]);
    assert!(!source.read_record(&mut record).unwrap());
    assert_eq!(record.values.len(), 0);
    assert!(!source.read_record(&mut record).unwrap());
}

#[test]
fn header_only_input_has_no_rows() {
    let (mut source, schema) = open("a,CUEX_b\n");
    let mut record = Record::new(&schema);
    assert!(!source.read_record(&mut record).unwrap());
}

#[test]
fn stale_values_do_not_leak() {
    let (mut source, schema) = open("a,CUEX_b\nfirst,ext\n,\n");
    let mut record = Record::new(&schema);
    assert!(source.read_record(&mut record).unwrap());
    assert_eq!(schema.standard(&record.values), vec![("a", "first")]);
    assert_eq!(schema.extensions(&record.values), vec![("b", "ext")]);
    assert!(source.read_record(&mut record).unwrap());
    assert_eq!(schema.standard(&record.values), Vec::<(&str, &str)>::new());
    assert_eq!(schema.extensions(&record.values), Vec::<(&str, &str)>::new());
}

#[test]
fn other_delimiter() {
    let (mut source, schema) = CsvSource::new("x;CUEX_y;z\n1;2;3\n".as_bytes(), b';').unwrap();
    let mut record = Record::new(&schema);
    assert!(source.read_record(&mut record).unwrap());
    assert_eq!(schema.standard(&record.values), vec![("x", "1"), ("z", "3")]);
    assert_eq!(schema.extensions(&record.values), vec![("y", "2")]);
}

#[test]
fn row_of_wrong_length_is_an_error() {
    let (mut source, schema) = open("a,b\n1,2,3\n");
    let mut record = Record::new(&schema);
    assert!(matches!(source.read_record(&mut record), Err(SourceError::Csv(_))));
}

#[test]
fn mixed_columns_keep_header_order() {
    let schema = Schema::from_header(record_of(vec!["CUEX_a", "b", "CUEX_c", "d", "e"])).unwrap();
    let values = record_of(vec!["1", "2", "3", "4", "5"]);
    assert_eq!(schema.standard(&values), vec![("b", "2"), ("d", "4"), ("e", "5")]);
    assert_eq!(schema.extensions(&values), vec![("a", "1"), ("c", "3")]);
}

#[test]
fn empty_header_record_is_refused() {
    assert!(matches!(Schema::from_header(csv::StringRecord::new()), Err(SourceError::MissingHeader)));
}

#[test]
fn short_row_skips_missing_columns() {
    let schema = Schema::from_header(record_of(vec!["a", "CUEX_b", "c"])).unwrap();
    let values = record_of(vec!["1"]);
    assert_eq!(schema.standard(&values), vec![("a", "1")]);
    assert_eq!(schema.extensions(&values), Vec::<(&str, &str)>::new());
}

#[test]
fn long_row_ignores_extra_values() {
    let schema = Schema::from_header(record_of(vec!["a", "CUEX_b"])).unwrap();
    let values = record_of(vec!["1", "2", "3"]);
    assert_eq!(schema.standard(&values), vec![("a", "1")]);
    assert_eq!(schema.extensions(&values), vec![("b", "2")]);
}

#[test]
fn classification_is_repeatable() {
    let schema = Schema::from_header(record_of(vec!["id", "CUEX_q", "n"])).unwrap();
    let values = record_of(vec!["7", "w", ""]);
    let first = schema.standard(&values);
    let second = schema.standard(&values);
    assert_eq!(first, second);
    assert_eq!(first, vec![("id", "7")]);
    assert_eq!(schema.extensions(&values), schema.extensions(&values));
    assert_eq!(schema.extensions(&values), vec![("q", "w")]);
}

#[test]
fn marker_alone_gives_empty_tag() {
    let schema = Schema::from_header(record_of(vec!["CUEX_"])).unwrap();
    let values = record_of(vec!["v"]);
    assert_eq!(schema.extensions(&values), vec![("", "v")]);
}

#[test]
fn tag_after_marker_keeps_non_ascii() {
    let schema = Schema::from_header(record_of(vec!["CUEX_größe", "ñ"])).unwrap();
    let values = record_of(vec!["1", "2"]);
    assert_eq!(schema.extensions(&values), vec![("größe", "1")]);
    assert_eq!(schema.standard(&values), vec![("ñ", "2")]);
}

#[test]
fn prefix_detection() {
    assert_eq!(CUSTOMER_EXTENSION_PREFIX, "CUEX_");
    assert!(has_extension_prefix("CUEX_a"));
    assert!(has_extension_prefix("CUEX_"));
    assert!(!has_extension_prefix("CUEX"));
    assert!(!has_extension_prefix("cuex_a"));
    assert!(!has_extension_prefix("xCUEX_a"));
    assert!(!has_extension_prefix(""));
}

#[test]
fn new_record_is_empty_and_bound() {
    let schema = Schema::from_header(record_of(vec!["a"])).unwrap();
    let record = Record::new(&schema);
    assert_eq!(record.values.len(), 0);
    assert!(std::ptr::eq(record.schema, &schema));
}

#[test]
fn repeated_names_give_one_pair_per_column() {
    let schema = Schema::from_header(record_of(vec!["a", "CUEX_t", "a", "CUEX_t"])).unwrap();
    let values = record_of(vec!["1", "x", "1", ""]);
    assert_eq!(schema.standard(&values), vec![("a", "1"), ("a", "1")]);
    assert_eq!(schema.extensions(&values), vec![("t", "x")]);
}
