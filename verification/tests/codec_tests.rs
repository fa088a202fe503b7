use csvkit::errors::CsvError;
use csvkit::reader::{parse_line, DictReader, QuoteStyle, ReaderOptions};
use csvkit::record::Record;
use csvkit::text::{join_plain, split_plain, str_eq};
use csvkit::writer::{next_multiple_of, quote_value, DictWriter, WriterOptions};

#[test]
fn test_malformed_without_quotes_is_rejected() {
    // The same data without the opening quote is malformed: the stray
    // quotes produce three fields against a header of two.
    let data = "header1,header2\nvalue1,with,comma\",\"value2\"".to_string();
    let mut lines = data.lines();
    let reader = DictReader::new(lines.next().unwrap(), ReaderOptions::default()).unwrap();
    let result = reader.read_record(lines.next().unwrap());
    assert_eq!(
        result.unwrap_err(),
        CsvError::FieldCountMismatch { expected: 2, got: 3 }
    );
}

#[test]
fn test_well_quoted_comma_field_parses() {
    let data = "header1,header2\n\"value1,with,comma\",\"value2\"".to_string();
    let mut lines = data.lines();
    let reader = DictReader::new(lines.next().unwrap(), ReaderOptions::default()).unwrap();
    let record = reader.read_record(lines.next().unwrap()).unwrap();
    assert_eq!(record.get("header1").unwrap().as_str(), "value1,with,comma");
    assert_eq!(record.get("header2").unwrap().as_str(), "value2");
}

#[test]
fn test_trailing_delimiter_yields_empty_final_field() {
    let values = parse_line("value1,", &ReaderOptions::default()).unwrap();
    assert_eq!(values.len(), 2);
    assert_eq!(values[0].as_str(), "value1");
    assert_eq!(values[1].as_str(), "");
}

#[test]
fn test_strict_unclosed_quote_exact_error() {
    let options = ReaderOptions {
        strict: true,
        ..Default::default()
    };
    let result = parse_line("value1,\"value2", &options);
    assert_eq!(result.unwrap_err(), CsvError::UnclosedQuote);
}

#[test]
fn test_tolerant_unclosed_quote_keeps_content() {
    let values = parse_line("value1,\"value2", &ReaderOptions::default()).unwrap();
    assert_eq!(values.len(), 2);
    assert_eq!(values[1].as_str(), "value2");
}

#[test]
fn test_dangling_escape_exact_error() {
    let options = ReaderOptions {
        escapechar: Some(b'\\'),
        ..Default::default()
    };
    let result = parse_line("\"abc\\", &options);
    assert_eq!(result.unwrap_err(), CsvError::DanglingEscape);
}

#[test]
fn test_write_all_quoted_scenario() {
    // Writing {header1: value1, header2: value2} under all-quoting with the
    // default quote, delimiter and terminator.
    let fieldnames = vec!["header1".to_string(), "header2".to_string()];
    let options = WriterOptions {
        quoting: QuoteStyle::All,
        ..Default::default()
    };
    let mut writer = DictWriter::new(fieldnames, options);
    let mut row = Record::new();
    row.insert("header1".to_string(), "value1".to_string());
    row.insert("header2".to_string(), "value2".to_string());
    writer.writerow(&row).unwrap();
    assert_eq!(writer.contents().as_str(), "\"value1\",\"value2\"\r\n");
}

#[test]
fn test_writeheader_idempotent() {
    let fieldnames = vec!["header1".to_string(), "header2".to_string()];
    let mut writer = DictWriter::new(fieldnames, WriterOptions::default());
    let first = writer.writeheader().unwrap();
    let after_once = writer.contents().clone();
    let second = writer.writeheader().unwrap();
    assert_eq!(writer.contents().as_str(), after_once.as_str());
    assert!(first > 0);
    assert_eq!(second, 0);
}

#[test]
fn test_double_quote_roundtrip_concrete() {
    // A value with two embedded quotes, written doubled, reads back with
    // exactly those two quotes.
    let original = "a\"b\"c";
    let options = WriterOptions {
        quoting: QuoteStyle::All,
        ..Default::default()
    };
    let written = quote_value(original, &options).unwrap();
    assert_eq!(written.as_str(), "\"a\"\"b\"\"c\"");
    let values = parse_line(written.as_str(), &ReaderOptions::default()).unwrap();
    assert_eq!(values.len(), 1);
    assert_eq!(values[0].as_str(), original);
    let quotes = values[0].chars().filter(|c| *c == '"').count();
    assert_eq!(quotes, 2);
}

#[test]
fn test_escape_roundtrip_concrete() {
    let original = "val\"ue";
    let woptions = WriterOptions {
        quoting: QuoteStyle::All,
        doublequote: false,
        escapechar: Some(b'\\'),
        ..Default::default()
    };
    let written = quote_value(original, &woptions).unwrap();
    assert_eq!(written.as_str(), "\"val\\\"ue\"");
    let roptions = ReaderOptions {
        doublequote: false,
        escapechar: Some(b'\\'),
        ..Default::default()
    };
    let values = parse_line(written.as_str(), &roptions).unwrap();
    assert_eq!(values.len(), 1);
    assert_eq!(values[0].as_str(), original);
}

#[test]
fn test_minimal_quotes_only_when_needed() {
    let options = WriterOptions::default();
    assert_eq!(quote_value("plain", &options).unwrap().as_str(), "plain");
    assert_eq!(quote_value("wi,th", &options).unwrap().as_str(), "\"wi,th\"");
    assert_eq!(quote_value("wi\nth", &options).unwrap().as_str(), "\"wi\nth\"");
    assert_eq!(quote_value("wi\rth", &options).unwrap().as_str(), "\"wi\rth\"");
    assert_eq!(
        quote_value("wi\"th", &options).unwrap().as_str(),
        "\"wi\"\"th\""
    );
}

#[test]
fn test_never_style_never_wraps() {
    let options = WriterOptions {
        quoting: QuoteStyle::Never,
        ..Default::default()
    };
    assert_eq!(quote_value("wi,th", &options).unwrap().as_str(), "wi,th");
    assert_eq!(quote_value("wi\"th", &options).unwrap().as_str(), "wi\"th");
}

#[test]
fn test_nonnumeric_style() {
    let options = WriterOptions {
        quoting: QuoteStyle::NonNumeric,
        ..Default::default()
    };
    assert_eq!(quote_value("12345", &options).unwrap().as_str(), "12345");
    assert_eq!(quote_value("12a45", &options).unwrap().as_str(), "\"12a45\"");
    // An empty value counts as all-numeric and stays unquoted.
    assert_eq!(quote_value("", &options).unwrap().as_str(), "");
}

#[test]
fn test_unescapable_quote_error() {
    let options = WriterOptions {
        quoting: QuoteStyle::All,
        doublequote: false,
        escapechar: None,
        ..Default::default()
    };
    let result = quote_value("wi\"th", &options);
    assert_eq!(result.unwrap_err(), CsvError::UnescapableQuoteChar);

    let fieldnames = vec!["header1".to_string()];
    let mut writer = DictWriter::new(fieldnames, options);
    let mut row = Record::new();
    row.insert("header1".to_string(), "wi\"th".to_string());
    assert_eq!(writer.writerow(&row).unwrap_err(), CsvError::UnescapableQuoteChar);
    assert_eq!(writer.contents().as_str(), "");
}

#[test]
fn test_missing_field_defaults_to_empty() {
    let fieldnames = vec!["header1".to_string(), "header2".to_string()];
    let mut writer = DictWriter::new(fieldnames, WriterOptions::default());
    let mut row = Record::new();
    row.insert("header1".to_string(), "value1".to_string());
    row.insert("elsewhere".to_string(), "unused".to_string());
    writer.writerow(&row).unwrap();
    assert_eq!(writer.contents().as_str(), "value1,\r\n");
}

#[test]
fn test_full_roundtrip_all_quoting() {
    let fieldnames = vec!["name".to_string(), "note".to_string()];
    let woptions = WriterOptions {
        quoting: QuoteStyle::All,
        ..Default::default()
    };
    let mut writer = DictWriter::new(fieldnames.clone(), woptions);
    writer.writeheader().unwrap();
    let mut row1 = Record::new();
    row1.insert("name".to_string(), "  spaced  ".to_string());
    row1.insert("note".to_string(), "has \"quotes\", commas".to_string());
    writer.writerows(&vec![row1]).unwrap();

    let output = writer.take_output();
    assert_eq!(writer.contents().as_str(), "");
    let mut lines = output.lines();
    let reader = DictReader::new(lines.next().unwrap(), ReaderOptions::default()).unwrap();
    assert_eq!(reader.header().len(), 2);
    let record = reader.read_record(lines.next().unwrap()).unwrap();
    // All-quoting protects even the surrounding whitespace.
    assert_eq!(record.get("name").unwrap().as_str(), "  spaced  ");
    assert_eq!(record.get("note").unwrap().as_str(), "has \"quotes\", commas");
}

#[test]
fn test_unquoted_whitespace_is_trimmed() {
    let values = parse_line("  x  ,y", &ReaderOptions::default()).unwrap();
    assert_eq!(values[0].as_str(), "x");
    assert_eq!(values[1].as_str(), "y");
}

#[test]
fn test_quoted_whitespace_is_preserved() {
    let values = parse_line("\"  x  \",y", &ReaderOptions::default()).unwrap();
    assert_eq!(values[0].as_str(), "  x  ");
    assert_eq!(values[1].as_str(), "y");
}

#[test]
fn test_record_insert_replaces() {
    let mut record = Record::new();
    record.insert("key".to_string(), "first".to_string());
    record.insert("key".to_string(), "second".to_string());
    assert_eq!(record.len(), 1);
    assert_eq!(record.get("key").unwrap().as_str(), "second");
    assert!(record.get("other").is_none());
}

#[test]
fn test_str_eq() {
    assert!(str_eq("abc", "abc"));
    assert!(!str_eq("abc", "abd"));
    assert!(!str_eq("abc", "abcd"));
    assert!(str_eq("", ""));
}

#[test]
fn test_split_and_join_plain() {
    let pieces = split_plain("a,,b,", ",");
    assert_eq!(pieces.len(), 4);
    assert_eq!(pieces[0].as_str(), "a");
    assert_eq!(pieces[1].as_str(), "");
    assert_eq!(pieces[2].as_str(), "b");
    assert_eq!(pieces[3].as_str(), "");

    let wide = split_plain("x::y::z", "::");
    assert_eq!(wide.len(), 3);
    assert_eq!(wide[1].as_str(), "y");

    let joined = join_plain(&vec!["a".to_string(), "".to_string(), "b".to_string()], ",");
    assert_eq!(joined.as_str(), "a,,b");
}

#[test]
fn test_next_multiple_of() {
    assert_eq!(next_multiple_of(8192, 4096), 8192);
    assert_eq!(next_multiple_of(5, 4), 8);
    assert_eq!(next_multiple_of(0, 4096), 0);
    assert_eq!(next_multiple_of(1, 4096), 4096);
}

#[test]
fn test_writerows_totals() {
    let fieldnames = vec!["header1".to_string()];
    let mut writer = DictWriter::new(fieldnames, WriterOptions::default());
    let mut row1 = Record::new();
    row1.insert("header1".to_string(), "aa".to_string());
    let mut row2 = Record::new();
    row2.insert("header1".to_string(), "bb".to_string());
    let total = writer.writerows(&vec![row1, row2]).unwrap();
    assert_eq!(writer.contents().as_str(), "aa\r\nbb\r\n");
    assert_eq!(total, 8);
}
