use csv::StringRecord;
use csvpeek::cli::{parse_columns, parse_range, Cli, SummaryArgs};
use csvpeek::commands::{build_csv_options, parse_delimiter, run_schema, run_summary};
use csvpeek::csv_reader::{supported_encodings, CsvOptions};
use csvpeek::error::{ColumnSuggestion, CsvpeekError};
use csvpeek::output::{escape_csv, ColorMode, OutputFormat, Renderer};
use csvpeek::text::to_chars;
use csvpeek::types::DataType;

fn header() -> StringRecord {
    StringRecord::from(vec!["id", "name", "age", "salary", "active"])
}

fn people() -> Vec<StringRecord> {
    vec![
        StringRecord::from(vec!["1", "Alice", "30", "50000.50", "true"]),
        StringRecord::from(vec!["2", "Bob", "25", "45000", "false"]),
        StringRecord::from(vec!["3", "Charlie", "35", "60000.75", "true"]),
        StringRecord::from(vec!["4", "Diana", "28", "", "true"]),
        StringRecord::from(vec!["5", "Eve", "42", "75000", "false"]),
    ]
}

fn columns(selection: &str) -> Result<Vec<String>, CsvpeekError> {
    parse_columns(selection, &header())
}

fn names(v: &[&str]) -> Vec<String> {
    v.iter().map(|s| s.to_string()).collect()
}

#[test]
fn columns_by_name_by_place_and_by_range() {
    assert_eq!(columns("age,salary"), Ok(names(&["age", "salary"])));
    assert_eq!(columns(" name , age ,, "), Ok(names(&["name", "age"])));
    assert_eq!(columns("0,2"), Ok(names(&["id", "age"])));
    assert_eq!(columns("+1"), Ok(names(&["name"])));
    assert_eq!(columns("0..2"), Ok(names(&["id", "name"])));
    assert_eq!(columns("0..=2"), Ok(names(&["id", "name", "age"])));
    assert_eq!(columns("3..5, name, 0"), Ok(names(&["salary", "active", "name", "id"])));
    assert_eq!(columns(" 1 .. 3 "), Ok(names(&["name", "age"])));
    assert_eq!(columns("2..2"), Ok(names(&[])));
    assert_eq!(columns("3..1"), Ok(names(&[])));
    assert_eq!(columns("3..=1"), Ok(names(&[])));
    assert_eq!(columns("0..5"), Ok(names(&["id", "name", "age", "salary", "active"])));
    assert_eq!(columns(""), Ok(names(&[])));
    assert_eq!(columns("age,age"), Ok(names(&["age", "age"])));
}

#[test]
fn a_place_beyond_the_header_is_reported() {
    assert_eq!(columns("999"), Err(CsvpeekError::ColumnIndexOutOfRange { index: 999, max: 4 }));
    assert_eq!(columns("5"), Err(CsvpeekError::ColumnIndexOutOfRange { index: 5, max: 4 }));
    assert_eq!(columns("0..6"), Err(CsvpeekError::ColumnIndexOutOfRange { index: 5, max: 4 }));
    assert_eq!(columns("0..=5"), Err(CsvpeekError::ColumnIndexOutOfRange { index: 5, max: 4 }));
    assert_eq!(
        columns("name, 7, nothing"),
        Err(CsvpeekError::ColumnIndexOutOfRange { index: 7, max: 4 })
    );
    assert_eq!(
        parse_columns("0", &StringRecord::new()),
        Err(CsvpeekError::ColumnIndexOutOfRange { index: 0, max: 0 })
    );
}

#[test]
fn an_unknown_name_is_reported() {
    assert_eq!(
        columns("nonexistent"),
        Err(CsvpeekError::ColumnNotFound { name: "nonexistent".to_string(), suggestion: None })
    );
    assert_eq!(
        columns("id, nmae"),
        Err(CsvpeekError::ColumnNotFound {
            name: "nmae".to_string(),
            suggestion: Some(ColumnSuggestion { suggested: "name".to_string() }),
        })
    );
    assert_eq!(
        columns("-1"),
        Err(CsvpeekError::ColumnNotFound {
            name: "-1".to_string(),
            suggestion: Some(ColumnSuggestion { suggested: "id".to_string() }),
        })
    );
    assert_eq!(
        columns("-12345"),
        Err(CsvpeekError::ColumnNotFound { name: "-12345".to_string(), suggestion: None })
    );
}

#[test]
fn a_range_with_a_bound_that_is_no_place_is_reported() {
    assert_eq!(
        columns("a..3"),
        Err(CsvpeekError::InvalidFilter("Invalid range start: a".to_string()))
    );
    assert_eq!(
        columns("1..b"),
        Err(CsvpeekError::InvalidFilter("Invalid range end: b".to_string()))
    );
    assert_eq!(
        columns("1..=-2"),
        Err(CsvpeekError::InvalidFilter("Invalid range end: -2".to_string()))
    );
    assert_eq!(
        columns("..3"),
        Err(CsvpeekError::InvalidFilter("Invalid range start: ".to_string()))
    );
    assert_eq!(
        columns("1 ..= x "),
        Err(CsvpeekError::InvalidFilter("Invalid range end:  x".to_string()))
    );
    assert_eq!(
        columns("1...3"),
        Err(CsvpeekError::InvalidFilter("Invalid range end: .3".to_string()))
    );
}

#[test]
fn ranges() {
    let h = names(&["a", "b", "c"]);
    assert_eq!(parse_range(&to_chars("0..2"), &h), Ok(Some(names(&["a", "b"]))));
    assert_eq!(parse_range(&to_chars("1..=2"), &h), Ok(Some(names(&["b", "c"]))));
    assert_eq!(parse_range(&to_chars("0..3"), &h), Ok(Some(names(&["a", "b", "c"]))));
    assert_eq!(parse_range(&to_chars("b"), &h), Ok(None));
    assert_eq!(parse_range(&to_chars("1"), &h), Ok(None));
    assert_eq!(
        parse_range(&to_chars("0..=3"), &h),
        Err(CsvpeekError::ColumnIndexOutOfRange { index: 3, max: 2 })
    );
    assert_eq!(
        parse_range(&to_chars("0..4"), &h),
        Err(CsvpeekError::ColumnIndexOutOfRange { index: 3, max: 2 })
    );
}

#[test]
fn delimiters() {
    assert_eq!(parse_delimiter("tab"), b'\t');
    assert_eq!(parse_delimiter("TAB"), b'\t');
    assert_eq!(parse_delimiter("\\t"), b'\t');
    assert_eq!(parse_delimiter("\\T"), b'\t');
    assert_eq!(parse_delimiter("\t"), b'\t');
    assert_eq!(parse_delimiter("comma"), b',');
    assert_eq!(parse_delimiter(","), b',');
    assert_eq!(parse_delimiter("Semicolon"), b';');
    assert_eq!(parse_delimiter(";"), b';');
    assert_eq!(parse_delimiter("pipe"), b'|');
    assert_eq!(parse_delimiter("|"), b'|');
    assert_eq!(parse_delimiter("space"), b' ');
    assert_eq!(parse_delimiter(" "), b' ');
    assert_eq!(parse_delimiter("#"), b'#');
    assert_eq!(parse_delimiter("xyz"), b'x');
    assert_eq!(parse_delimiter(""), b',');
    assert_eq!(parse_delimiter("é"), 0xC3);
}

#[test]
fn reader_options() {
    let options = CsvOptions::new();
    assert_eq!(options.delimiter, b',');
    assert!(!options.no_header);
    assert_eq!(options.encoding, None);
    let options = options
        .with_delimiter(b';')
        .with_no_header(true)
        .with_encoding(Some("sjis".to_string()));
    assert_eq!(options.delimiter, b';');
    assert!(options.no_header);
    assert_eq!(options.encoding, Some("sjis".to_string()));
    assert!(supported_encodings().starts_with("utf-8, shift_jis (cp932)"));
    let cli = Cli {
        command: None,
        file: Some("data.csv".to_string()),
        delimiter: "pipe".to_string(),
        no_header: true,
        output: None,
        quiet: false,
        color: "auto".to_string(),
        encoding: Some("latin1".to_string()),
    };
    let options = build_csv_options(&cli);
    assert_eq!(options.delimiter, b'|');
    assert!(options.no_header);
    assert_eq!(options.encoding, Some("latin1".to_string()));
}

#[test]
fn formats_and_colours() {
    assert_eq!(OutputFormat::from_str("table"), Ok(OutputFormat::Table));
    assert_eq!(OutputFormat::from_str("JSON"), Ok(OutputFormat::Json));
    assert_eq!(OutputFormat::from_str("NdJson"), Ok(OutputFormat::NdJson));
    assert_eq!(OutputFormat::from_str("csv"), Ok(OutputFormat::Csv));
    assert_eq!(
        OutputFormat::from_str("xml"),
        Err("Unknown output format: xml. Supported: table, json, ndjson, csv".to_string())
    );
    assert_eq!(ColorMode::from_str("always"), ColorMode::Always);
    assert_eq!(ColorMode::from_str("NEVER"), ColorMode::Never);
    assert_eq!(ColorMode::from_str("auto"), ColorMode::Auto);
    assert_eq!(ColorMode::from_str("whatever"), ColorMode::Auto);
    assert!(ColorMode::Always.should_colorize(false));
    assert!(!ColorMode::Never.should_colorize(true));
    assert!(ColorMode::Auto.should_colorize(true));
    assert!(!ColorMode::Auto.should_colorize(false));
    let renderer = Renderer::new(OutputFormat::Json);
    assert_eq!(renderer.format, OutputFormat::Json);
    assert_eq!(renderer.output_path, None);
    assert_eq!(renderer.color_mode, ColorMode::Auto);
    assert!(renderer.use_color(true));
    assert!(!renderer.use_color(false));
    let renderer = renderer.with_output(Some("out.txt".to_string()));
    assert!(!renderer.use_color(true));
    let renderer = renderer.with_color(ColorMode::Always);
    assert_eq!(renderer.output_path, Some("out.txt".to_string()));
    assert!(renderer.use_color(false));
}

#[test]
fn fields_are_quoted_where_needed() {
    assert_eq!(escape_csv("plain"), "plain");
    assert_eq!(escape_csv(""), "");
    assert_eq!(escape_csv("a,b"), "\"a,b\"");
    assert_eq!(escape_csv("say \"hi\""), "\"say \"\"hi\"\"\"");
    assert_eq!(escape_csv("two\nlines"), "\"two\nlines\"");
    assert_eq!(escape_csv("\""), "\"\"\"\"");
}

#[test]
fn a_summary_of_all_columns() {
    let report = run_summary(&SummaryArgs::default(), &header(), &people()).unwrap();
    assert_eq!(report.total_rows, 5);
    assert_eq!(report.matched_rows, 5);
    let names: Vec<&str> = report.stats.iter().map(|s| s.name.as_str()).collect();
    assert_eq!(names, vec!["id", "name", "age", "salary", "active"]);
    let types: Vec<DataType> = report.stats.iter().map(|s| s.data_type).collect();
    assert_eq!(
        types,
        vec![
            DataType::Integer,
            DataType::String,
            DataType::Integer,
            DataType::Float,
            DataType::Boolean
        ]
    );
    assert_eq!(report.stats[2].min, Some("25".to_string()));
    assert_eq!(report.stats[2].max, Some("42".to_string()));
    assert_eq!(report.stats[3].count, 4);
    assert_eq!(report.stats[3].null_count, 1);
    assert_eq!(report.stats[3].min, Some("45000".to_string()));
    assert_eq!(report.stats[3].max, Some("75000".to_string()));
}

#[test]
fn a_summary_of_some_columns_of_some_rows() {
    let args = SummaryArgs {
        cols: Some("age,0".to_string()),
        where_clause: Some("age > 30".to_string()),
        format: None,
    };
    let report = run_summary(&args, &header(), &people()).unwrap();
    assert_eq!(report.total_rows, 5);
    assert_eq!(report.matched_rows, 2);
    assert_eq!(report.stats.len(), 2);
    assert_eq!(report.stats[0].name, "age");
    assert_eq!(report.stats[0].count, 2);
    assert_eq!(report.stats[0].min, Some("35".to_string()));
    assert_eq!(report.stats[0].max, Some("42".to_string()));
    assert_eq!(report.stats[1].name, "id");
    assert_eq!(report.stats[1].min, Some("3".to_string()));
    let none = SummaryArgs { cols: None, where_clause: Some("age > 99".to_string()), format: None };
    let report = run_summary(&none, &header(), &people()).unwrap();
    assert_eq!(report.matched_rows, 0);
    assert!(report.stats.iter().all(|s| s.count == 0 && s.null_count == 0));
    let empty = run_summary(&SummaryArgs::default(), &header(), &[]).unwrap();
    assert_eq!(empty.total_rows, 0);
    assert_eq!(empty.stats.len(), 5);
}

#[test]
fn a_summary_fails_on_its_columns_before_its_filter() {
    let args = SummaryArgs {
        cols: Some("999".to_string()),
        where_clause: Some("nothing > 5".to_string()),
        format: None,
    };
    assert_eq!(
        run_summary(&args, &header(), &people()).map(|_| ()),
        Err(CsvpeekError::ColumnIndexOutOfRange { index: 999, max: 4 })
    );
    let args = SummaryArgs {
        cols: Some("age".to_string()),
        where_clause: Some("invalid_column > 5".to_string()),
        format: None,
    };
    assert_eq!(
        run_summary(&args, &header(), &people()).map(|_| ()),
        Err(CsvpeekError::ColumnNotFound { name: "invalid_column".to_string(), suggestion: None })
    );
}

#[test]
fn a_schema_of_all_columns() {
    let schema = run_schema(&header(), &people());
    assert_eq!(schema.len(), 5);
    let types: Vec<String> = schema.iter().map(|c| c.inferred_type.to_string()).collect();
    assert_eq!(types, vec!["integer", "string", "integer", "float", "boolean"]);
    assert_eq!(schema[3].null_count, 1);
    assert_eq!(schema[3].total_count, 5);
    assert_eq!(schema[1].sample_values, vec!["Alice", "Bob", "Charlie"]);
    assert!(run_schema(&header(), &[]).iter().all(|c| c.inferred_type == DataType::String));
}

#[test]
fn columns_without_a_header_are_numbered() {
    assert_eq!(csvpeek::csv_reader::generated_headers(0), Vec::<String>::new());
    assert_eq!(csvpeek::csv_reader::generated_headers(4), names(&["col0", "col1", "col2", "col3"]));
    let many = csvpeek::csv_reader::generated_headers(1002);
    assert_eq!(many[9], "col9");
    assert_eq!(many[10], "col10");
    assert_eq!(many[1001], "col1001");
}

#[test]
fn byte_order_marks() {
    use_bom(&[0xEF, 0xBB, 0xBF, b'a'], Some((3, "UTF-8")));
    use_bom(&[0xEF, 0xBB, 0xBF], Some((3, "UTF-8")));
    use_bom(&[0xFF, 0xFE, b'a', 0], Some((2, "UTF-16LE")));
    use_bom(&[0xFE, 0xFF, 0, b'a'], Some((2, "UTF-16BE")));
    use_bom(&[0xEF, 0xBB], None);
    use_bom(&[0xFF], None);
    use_bom(&[], None);
    use_bom(b"id,name", None);
}

fn use_bom(bytes: &[u8], expected: Option<(usize, &str)>) {
    let found = csvpeek::csv_reader::detect_bom(bytes).map(|b| (b.len(), b.encoding()));
    assert_eq!(found, expected);
}

#[test]
fn short_names_of_encodings() {
    let label = csvpeek::csv_reader::encoding_label;
    assert_eq!(label("utf-8"), Some("UTF-8"));
    assert_eq!(label("UTF8"), Some("UTF-8"));
    assert_eq!(label("utf_16"), Some("UTF-16LE"));
    assert_eq!(label("UTF-16BE"), Some("UTF-16BE"));
    assert_eq!(label("sjis"), Some("Shift_JIS"));
    assert_eq!(label("Shift_JIS"), Some("Shift_JIS"));
    assert_eq!(label("cp932"), Some("Shift_JIS"));
    assert_eq!(label("windows-31j"), Some("Shift_JIS"));
    assert_eq!(label("euc-jp"), Some("EUC-JP"));
    assert_eq!(label("ISO-2022-JP"), Some("ISO-2022-JP"));
    assert_eq!(label("gb2312"), Some("GBK"));
    assert_eq!(label("gb\u{212A}"), Some("GBK"));
    assert_eq!(label("GB18030"), Some("gb18030"));
    assert_eq!(label("cp950"), Some("Big5"));
    assert_eq!(label("euc_kr"), Some("EUC-KR"));
    assert_eq!(label("latin1"), Some("windows-1252"));
    assert_eq!(label("ISO-8859-1"), Some("windows-1252"));
    assert_eq!(label("iso-8859-2"), Some("ISO-8859-2"));
    assert_eq!(label("iso8859-15"), Some("ISO-8859-15"));
    assert_eq!(label("koi8-r"), Some("KOI8-R"));
    assert_eq!(label("KOI8_U"), Some("KOI8-U"));
    assert_eq!(label("macintosh"), None);
    assert_eq!(label(""), None);
}

#[test]
fn messages_of_errors() {
    assert_eq!(
        CsvpeekError::FileNotFound("a.csv".to_string()).to_string(),
        "File not found: a.csv"
    );
    assert_eq!(
        CsvpeekError::ColumnNotFound {
            name: "nmae".to_string(),
            suggestion: Some(ColumnSuggestion { suggested: "name".to_string() }),
        }
        .to_string(),
        "Column not found: nmae"
    );
    assert_eq!(
        ColumnSuggestion { suggested: "name".to_string() }.to_string(),
        "did you mean \"name\"?"
    );
    assert_eq!(
        CsvpeekError::ColumnIndexOutOfRange { index: 999, max: 4 }.to_string(),
        "Column index 999 is out of range (max: 4)"
    );
    assert_eq!(
        CsvpeekError::ColumnIndexOutOfRange { index: 0, max: 0 }.to_string(),
        "Column index 0 is out of range (max: 0)"
    );
    assert_eq!(
        CsvpeekError::InvalidFilter("Expected array".to_string()).to_string(),
        "Invalid filter expression: Expected array"
    );
    assert_eq!(
        CsvpeekError::ParseError { position: 12, message: "unexpected".to_string() }.to_string(),
        "Parse error at position 12: unexpected"
    );
}

#[test]
fn integers_in_decimal_digits() {
    let text = |n: usize| csvpeek::number::usize_text(n).iter().collect::<String>();
    assert_eq!(text(0), "0");
    assert_eq!(text(7), "7");
    assert_eq!(text(10), "10");
    assert_eq!(text(12345), "12345");
    assert_eq!(text(usize::MAX), usize::MAX.to_string());
    for n in [0usize, 9, 10, 99, 100, 4096, 1_000_000] {
        assert_eq!(csvpeek::number::parse_usize(&to_chars(&text(n))), Some(n));
    }
    assert_eq!(csvpeek::number::parse_usize(&to_chars("18446744073709551616")), None);
    assert_eq!(csvpeek::number::parse_usize(&to_chars("")), None);
    assert_eq!(csvpeek::number::parse_usize(&to_chars("+")), None);
    assert_eq!(csvpeek::number::parse_usize(&to_chars("-0")), None);
    assert_eq!(csvpeek::number::parse_usize(&to_chars("007")), Some(7));
}

#[test]
fn progress_is_shown_for_large_files() {
    use_progress();
}

fn use_progress() {
    let shows = csvpeek::progress::shows_bar;
    assert!(shows(false, 1_000_000));
    assert!(shows(false, 5_000_000));
    assert!(!shows(false, 999_999));
    assert!(!shows(true, 5_000_000));
    let bytes = csvpeek::progress::record_bytes;
    assert_eq!(bytes(&StringRecord::from(vec!["ab", "", "é"])), 3 + 1 + 3);
    assert_eq!(bytes(&StringRecord::new()), 0);
    let mut state = csvpeek::progress::ProgressState::new();
    for row in 1..=2500u64 {
        let due = state.update(10);
        if row % 1000 == 0 {
            assert_eq!(due, Some(row * 10));
        } else {
            assert_eq!(due, None);
        }
    }
    assert_eq!(state.count, 2500);
    assert_eq!(state.bytes_read, 25000);
}

#[test]
fn no_text_breaks_the_selection() {
    let pieces = ["0", "1", "9", "..", "..=", ",", " ", "name", "age", "+", "-", "x", "é", "."];
    let mut state: u64 = 7;
    let mut selected = 0;
    for _ in 0..3000 {
        let mut text = String::new();
        state = state.wrapping_mul(6364136223846793005).wrapping_add(1442695040888963407);
        let parts = 1 + (state >> 60) as usize % 6;
        for _ in 0..parts {
            state = state.wrapping_mul(6364136223846793005).wrapping_add(1442695040888963407);
            text.push_str(pieces[(state >> 33) as usize % pieces.len()]);
        }
        if let Ok(names) = columns(&text) {
            selected += 1;
            assert!(names.iter().all(|n| header().iter().any(|h| h == n)));
        }
    }
    assert!(selected > 0);
}

#[test]
fn a_summary_row_by_row() {
    let args = SummaryArgs {
        cols: Some("age,salary".to_string()),
        where_clause: Some("active == true".to_string()),
        format: None,
    };
    let mut pass = csvpeek::commands::SummaryPass::new(&args, &header()).unwrap();
    assert!(!pass.is_full());
    for row in people() {
        pass = pass.add_record(&row);
    }
    let stepped = pass.finish();
    let whole = run_summary(&args, &header(), &people()).unwrap();
    assert_eq!(stepped.total_rows, 5);
    assert_eq!(stepped.matched_rows, 3);
    assert_eq!(stepped.total_rows, whole.total_rows);
    assert_eq!(stepped.matched_rows, whole.matched_rows);
    assert_eq!(stepped.stats, whole.stats);
    assert_eq!(stepped.stats[0].min, Some("28".to_string()));
    assert_eq!(stepped.stats[0].max, Some("35".to_string()));
    assert_eq!(stepped.stats[1].null_count, 1);
    let after_two = {
        let mut pass = csvpeek::commands::SummaryPass::new(&args, &header()).unwrap();
        for row in people().iter().take(2) {
            pass = pass.add_record(row);
        }
        pass.finish()
    };
    assert_eq!(after_two.total_rows, 2);
    assert_eq!(after_two.matched_rows, 1);
    assert_eq!(after_two.stats, run_summary(&args, &header(), &people()[..2]).unwrap().stats);
}

#[test]
fn a_summary_is_refused_before_any_row() {
    let unknown = SummaryArgs { cols: Some("nothing".to_string()), where_clause: None, format: None };
    assert!(matches!(
        csvpeek::commands::SummaryPass::new(&unknown, &header()),
        Err(CsvpeekError::ColumnNotFound { .. })
    ));
    let bad = SummaryArgs { cols: None, where_clause: Some("just words".to_string()), format: None };
    assert!(matches!(
        csvpeek::commands::SummaryPass::new(&bad, &header()),
        Err(CsvpeekError::InvalidFilter(_))
    ));
}

#[test]
fn a_schema_row_by_row() {
    let mut pass = csvpeek::commands::SchemaPass::new(&header());
    assert_eq!(pass.finish(), run_schema(&header(), &[]));
    pass = csvpeek::commands::SchemaPass::new(&header());
    for row in people() {
        assert!(!pass.is_full());
        pass = pass.add_record(&row);
    }
    assert_eq!(pass.finish(), run_schema(&header(), &people()));
}
