use csvkit::reader::QuoteStyle;
use csvkit::record::Record;
use csvkit::writer::{DictWriter, WriterOptions};

#[test]
fn test_dict_writer_basic() {
    let fieldnames = vec!["header1".to_string(), "header2".to_string()];
    let options = WriterOptions::default();
    let mut writer = DictWriter::new(fieldnames.clone(), options);
    writer.writeheader().unwrap();

    let mut row1 = Record::new();
    row1.insert("header1".to_string(), "value1".to_string());
    row1.insert("header2".to_string(), "value2".to_string());
    writer.writerow(&row1).unwrap();

    let mut row2 = Record::new();
    row2.insert("header1".to_string(), "value3".to_string());
    row2.insert("header2".to_string(), "value4".to_string());
    writer.writerow(&row2).unwrap();

    assert_eq!(
        writer.contents().as_str(),
        "header1,header2\r\nvalue1,value2\r\nvalue3,value4\r\n"
    );
}

#[test]
fn test_dict_writer_custom_delimiter() {
    let fieldnames = vec!["header1".to_string(), "header2".to_string()];
    let options = WriterOptions {
        delimiter: b';',
        ..Default::default()
    };
    let mut writer = DictWriter::new(fieldnames.clone(), options);
    writer.writeheader().unwrap();

    let mut row1 = Record::new();
    row1.insert("header1".to_string(), "value1".to_string());
    row1.insert("header2".to_string(), "value2".to_string());
    writer.writerow(&row1).unwrap();

    assert_eq!(writer.contents().as_str(), "header1;header2\r\nvalue1;value2\r\n");
}

#[test]
fn test_dict_writer_quote_all() {
    let fieldnames = vec!["header1".to_string(), "header2".to_string()];
    let options = WriterOptions {
        quoting: QuoteStyle::All,
        ..Default::default()
    };
    let mut writer = DictWriter::new(fieldnames.clone(), options);
    writer.writeheader().unwrap();

    let mut row1 = Record::new();
    row1.insert("header1".to_string(), "value1".to_string());
    row1.insert("header2".to_string(), "value2".to_string());
    writer.writerow(&row1).unwrap();

    assert_eq!(
        writer.contents().as_str(),
        "\"header1\",\"header2\"\r\n\"value1\",\"value2\"\r\n"
    );
}

#[test]
fn test_dict_writer_quote_minimal() {
    let fieldnames = vec!["header1".to_string(), "header2".to_string()];
    let options = WriterOptions {
        quoting: QuoteStyle::Minimal,
        ..Default::default()
    };
    let mut writer = DictWriter::new(fieldnames.clone(), options);
    writer.writeheader().unwrap();

    let mut row1 = Record::new();
    row1.insert("header1".to_string(), "value1,".to_string());
    row1.insert("header2".to_string(), "value2".to_string());
    writer.writerow(&row1).unwrap();

    assert_eq!(
        writer.contents().as_str(),
        "header1,header2\r\n\"value1,\",value2\r\n"
    );
}

#[test]
fn test_dict_writer_escapechar() {
    let fieldnames = vec!["header1".to_string(), "header2".to_string()];
    let options = WriterOptions {
        escapechar: Some(b'\\'),
        doublequote: false,
        quoting: QuoteStyle::All,
        ..Default::default()
    };
    let mut writer = DictWriter::new(fieldnames.clone(), options);
    writer.writeheader().unwrap();

    let mut row1 = Record::new();
    row1.insert("header1".to_string(), "value1".to_string());
    row1.insert("header2".to_string(), "value\"2".to_string());
    writer.writerow(&row1).unwrap();

    assert_eq!(
        writer.contents().as_str(),
        "\"header1\",\"header2\"\r\n\"value1\",\"value\\\"2\"\r\n"
    );
}

#[test]
fn test_dict_writer_lineterminator() {
    let fieldnames = vec!["header1".to_string(), "header2".to_string()];
    let mut options = WriterOptions::default();
    options.lineterminator = "\n".to_string();
    let mut writer = DictWriter::new(fieldnames.clone(), options);
    writer.writeheader().unwrap();

    let mut row1 = Record::new();
    row1.insert("header1".to_string(), "value1".to_string());
    row1.insert("header2".to_string(), "value2".to_string());
    writer.writerow(&row1).unwrap();

    assert_eq!(writer.contents().as_str(), "header1,header2\nvalue1,value2\n");
}

#[test]
fn test_dict_writer_doublequote() {
    let fieldnames = vec!["header1".to_string(), "header2".to_string()];
    let mut options = WriterOptions::default();
    options.doublequote = true;
    options.quoting = QuoteStyle::All;
    let mut writer = DictWriter::new(fieldnames.clone(), options);
    writer.writeheader().unwrap();

    let mut row1 = Record::new();
    row1.insert("header1".to_string(), "value1".to_string());
    row1.insert("header2".to_string(), "value\"2".to_string());
    writer.writerow(&row1).unwrap();

    assert_eq!(
        writer.contents().as_str(),
        "\"header1\",\"header2\"\r\n\"value1\",\"value\"\"2\"\r\n"
    );
}

#[test]
fn test_dict_writer_no_quote() {
    let fieldnames = vec!["header1".to_string(), "header2".to_string()];
    let mut options = WriterOptions::default();
    options.quoting = QuoteStyle::Never;
    let mut writer = DictWriter::new(fieldnames.clone(), options);
    writer.writeheader().unwrap();

    let mut row1 = Record::new();
    row1.insert("header1".to_string(), "value1".to_string());
    row1.insert("header2".to_string(), "value2".to_string());
    writer.writerow(&row1).unwrap();

    assert_eq!(writer.contents().as_str(), "header1,header2\r\nvalue1,value2\r\n");
}
