use csvkit::reader::{DictReader, QuoteStyle, ReaderOptions};

#[test]
fn test_basic_csv_parsing() {
    let data = "header1,header2\nvalue1,value2".to_string();
    let mut lines = data.lines();
    let reader = DictReader::new(lines.next().unwrap(), ReaderOptions::default()).unwrap();
    let record = reader.read_record(lines.next().unwrap()).unwrap();
    assert_eq!(record.get("header1").unwrap().as_str(), "value1");
    assert_eq!(record.get("header2").unwrap().as_str(), "value2");
}

#[test]
fn test_custom_delimiter() {
    let data = "header1;header2\nvalue1;value2".to_string();
    let options = ReaderOptions {
        delimiter: b';',
        ..Default::default()
    };
    let mut lines = data.lines();
    let reader = DictReader::new(lines.next().unwrap(), options).unwrap();
    let record = reader.read_record(lines.next().unwrap()).unwrap();
    assert_eq!(record.get("header1").unwrap().as_str(), "value1");
    assert_eq!(record.get("header2").unwrap().as_str(), "value2");
}

#[test]
fn test_quoted_fields() {
    let data = "header1,header2\n\"value1,with,comma\",\"value2\"".to_string();
    let mut lines = data.lines();
    let reader = DictReader::new(lines.next().unwrap(), ReaderOptions::default()).unwrap();
    let record = reader.read_record(lines.next().unwrap()).unwrap();
    assert_eq!(record.get("header1").unwrap().as_str(), "value1,with,comma");
    assert_eq!(record.get("header2").unwrap().as_str(), "value2");
}

#[test]
fn test_escape_char() {
    let data = "header1,header2\nvalue1,\"value2\\\"with\\\"quotes\"".to_string();
    let options = ReaderOptions {
        escapechar: Some(b'\\'),
        ..Default::default()
    };
    let mut lines = data.lines();
    let reader = DictReader::new(lines.next().unwrap(), options).unwrap();
    let record = reader.read_record(lines.next().unwrap()).unwrap();
    assert_eq!(record.get("header1").unwrap().as_str(), "value1");
    assert_eq!(record.get("header2").unwrap().as_str(), "value2\"with\"quotes");
}

#[test]
fn test_empty_fields() {
    let data = "header1,header2\nvalue1,".to_string();
    let mut lines = data.lines();
    let reader = DictReader::new(lines.next().unwrap(), ReaderOptions::default()).unwrap();
    let record = reader.read_record(lines.next().unwrap()).unwrap();
    assert_eq!(record.get("header1").unwrap().as_str(), "value1");
    assert_eq!(record.get("header2").unwrap().as_str(), "");
}

#[test]
fn test_skip_initial_space() {
    let data = "header1,header2\nvalue1, value2".to_string();
    let options = ReaderOptions {
        skipinitialspace: true,
        ..Default::default()
    };
    let mut lines = data.lines();
    let reader = DictReader::new(lines.next().unwrap(), options).unwrap();
    let record = reader.read_record(lines.next().unwrap()).unwrap();
    assert_eq!(record.get("header1").unwrap().as_str(), "value1");
    assert_eq!(record.get("header2").unwrap().as_str(), "value2");
}

#[test]
fn test_strict_mode_invalid_csv() {
    let data = "header1,header2\nvalue1,\"value2".to_string();
    let options = ReaderOptions {
        strict: true,
        ..Default::default()
    };
    let mut lines = data.lines();
    let reader = DictReader::new(lines.next().unwrap(), options).unwrap();
    let result = reader.read_record(lines.next().unwrap());
    assert!(result.is_err());
}

#[test]
fn test_non_default_quote_char() {
    let data = "header1|header2\nvalue1|\'value with quote\'".to_string();
    let options = ReaderOptions {
        delimiter: b'|',
        quotechar: b'\'',
        ..Default::default()
    };
    let mut lines = data.lines();
    let reader = DictReader::new(lines.next().unwrap(), options).unwrap();
    let record = reader.read_record(lines.next().unwrap()).unwrap();
    assert_eq!(record.get("header1").unwrap().as_str(), "value1");
    assert_eq!(record.get("header2").unwrap().as_str(), "value with quote");
}

#[test]
fn test_different_quoting_styles() {
    let data = "header1,header2\n\"value1\",\"value2\"".to_string();
    let options = ReaderOptions {
        quoting: QuoteStyle::All,
        ..Default::default()
    };
    let mut lines = data.lines();
    let reader = DictReader::new(lines.next().unwrap(), options).unwrap();
    let record = reader.read_record(lines.next().unwrap()).unwrap();
    assert_eq!(record.get("header1").unwrap().as_str(), "value1");
    assert_eq!(record.get("header2").unwrap().as_str(), "value2");
}

#[test]
fn test_default_options() {
    let data = "header1,header2\nvalue1,value2".to_string();
    let options = ReaderOptions::default();
    let mut lines = data.lines();
    let reader = DictReader::new(lines.next().unwrap(), options).unwrap();
    let record = reader.read_record(lines.next().unwrap()).unwrap();
    assert_eq!(record.get("header1").unwrap().as_str(), "value1");
    assert_eq!(record.get("header2").unwrap().as_str(), "value2");
}
