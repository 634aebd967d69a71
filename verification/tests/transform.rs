use contact_csv::csv_core::{check_header, create_csv_data, to_text, CsvError};
use contact_csv::functions::{apply_function, FunctionKind, FunctionSpec, fill_row, get_function_index};
use contact_csv::phone::format_destination;
use contact_csv::pipeline::process_csv;
use contact_csv::{get_separator, SEP_COMMA, SEP_PIPE, SEP_SEMICOLON, SEP_TAB};

fn s(x: &str) -> String {
    x.to_string()
}

fn fspec(out: &str, kind: FunctionKind, source: Option<&str>, target: Option<&str>) -> FunctionSpec {
    FunctionSpec {
        output_name: s(out),
        kind,
        source: source.map(s),
        target: target.map(s),
    }
}

#[test]
fn test_format_destination() {
    assert_eq!(format_destination("11 4307 4457", "AR"), "541143074457");
    assert_eq!(format_destination("71234567", "BO"), "59171234567");
    assert_eq!(format_destination("11 97205 7032", "BR"), "5511972057032");
    assert_eq!(format_destination("9 9123 4567", "CL"), "56991234567");
    assert_eq!(format_destination("310 2118879", "CO"), "573102118879");
    assert_eq!(format_destination("83123456", "CR"), "50683123456");
    assert_eq!(format_destination("809-686-5700", "DO"), "18096865700");
    assert_eq!(format_destination("991234567", "EC"), "593991234567");
    assert_eq!(format_destination("71123456", "SV"), "50371123456");
    assert_eq!(format_destination("51234567", "GT"), "50251234567");
    assert_eq!(format_destination("91234567", "HN"), "50491234567");
    assert_eq!(format_destination("55 56173797", "MX"), "525556173797");
    assert_eq!(format_destination("81234567", "NI"), "50581234567");
    assert_eq!(format_destination("61234567", "PA"), "50761234567");
    assert_eq!(format_destination("912345678", "PE"), "51912345678");
    assert_eq!(format_destination("981234567", "PY"), "595981234567");
    assert_eq!(format_destination("7700123456", "UK"), "447700123456");
    assert_eq!(format_destination("623 366 8812", "US"), "16233668812");
    assert_eq!(format_destination("99123456", "UY"), "59899123456");
    assert_eq!(format_destination("412-1234567", "VE"), "584121234567");
}

#[test]
fn test_process_csv() {
    let result = process_csv("1giga.csv", "BR", &Vec::new());
    assert!(result.is_ok(), "process_csv should return Ok with valid input");
}

#[test]
fn sniffs_separators_in_priority_order() {
    assert_eq!(get_separator(";a;b"), SEP_SEMICOLON);
    assert_eq!(get_separator("a|b"), SEP_PIPE);
    assert_eq!(get_separator("a\tb"), SEP_TAB);
    assert_eq!(get_separator("a,b"), SEP_COMMA);
    assert_eq!(get_separator("abc"), SEP_COMMA);
    assert_eq!(get_separator("a;b,c"), SEP_SEMICOLON);
    assert_eq!(get_separator("a|b\tc,d"), SEP_PIPE);
}

#[test]
fn header_with_empty_cell_is_rejected() {
    let h = vec![s("a"), s(""), s("c")];
    assert_eq!(check_header(&h), Err(CsvError::EmptyHeaderError));
}

#[test]
fn header_with_duplicate_is_rejected() {
    let h = vec![s("a"), s("b"), s("a")];
    assert_eq!(check_header(&h), Err(CsvError::DuplicateHeaderError));
}

#[test]
fn valid_header_passes() {
    let h = vec![s("a"), s("b")];
    assert_eq!(check_header(&h), Ok(()));
}

#[test]
fn empty_cell_wins_over_duplicate() {
    let h = vec![s("a"), s("a"), s("")];
    assert_eq!(check_header(&h), Err(CsvError::EmptyHeaderError));
}

#[test]
fn serializer_quotes_exactly() {
    let table = vec![vec![s("a;b"), s("c\"d"), s("e\nf"), s("plain")]];
    let text = to_text(table).unwrap();
    assert_eq!(text, "\"a;b\";\"c\"\"d\";\"e\nf\";plain\n");
}

#[test]
fn round_trip_keeps_headers_and_rows() {
    let table = vec![
        vec![s("h1"), s("h2"), s("h3")],
        vec![s("a;b"), s("c\"d"), s("e\nf")],
        vec![s(""), s("plain"), s("x,y")],
    ];
    let text = to_text(table).unwrap();
    let parsed = create_csv_data(&text, SEP_SEMICOLON).unwrap();
    assert_eq!(parsed.placeholders, vec![s("h1"), s("h2"), s("h3")]);
    assert_eq!(parsed.data.len(), 2);
    assert_eq!(parsed.data[0], vec![s("a;b"), s("c\"d"), s("e\nf")]);
    assert_eq!(parsed.data[1], vec![s(""), s("plain"), s("x,y")]);
}

#[test]
fn unknown_country_strips_to_digits() {
    assert_eq!(format_destination("abc123-456", "ZZ"), "123456");
}

#[test]
fn country_code_is_case_insensitive() {
    assert_eq!(format_destination("11 97205 7032", "br"), "5511972057032");
}

#[test]
fn non_matching_length_keeps_digits() {
    assert_eq!(format_destination("123", "BR"), "123");
}

#[test]
fn engine_downcases() {
    assert_eq!(apply_function(&FunctionKind::Downcase, s("ABC"), None), "abc");
}

#[test]
fn engine_upcases() {
    assert_eq!(apply_function(&FunctionKind::Upcase, s("abc"), None), "ABC");
}

#[test]
fn engine_first_word() {
    assert_eq!(apply_function(&FunctionKind::FirstWord, s("hello world"), None), "hello");
    assert_eq!(apply_function(&FunctionKind::FirstWord, s(""), None), "");
}

#[test]
fn engine_first_down() {
    assert_eq!(apply_function(&FunctionKind::FirstDown, s("Hello World"), None), "hello");
}

#[test]
fn engine_fixed_returns_target() {
    let t = s("X");
    assert_eq!(apply_function(&FunctionKind::Fixed, s("anything"), Some(&t)), "X");
    assert_eq!(apply_function(&FunctionKind::Fixed, s("anything"), None), "");
}

#[test]
fn engine_dynamic_and_unrecognized_pass_through() {
    assert_eq!(apply_function(&FunctionKind::Dynamic, s("as is"), None), "as is");
    assert_eq!(apply_function(&FunctionKind::Unrecognized, s("as is"), None), "as is");
}

#[test]
fn engine_random_is_always_an_integer_below_1000() {
    for _ in 0..200 {
        let out = apply_function(&FunctionKind::RandomNum, s(""), None);
        let n: u32 = out.parse().expect("random_num must be an integer");
        assert!(n < 1000);
    }
}

#[test]
fn engine_send_date_shape() {
    let out = apply_function(&FunctionKind::SendDate, s(""), None);
    let parts: Vec<&str> = out.split('/').collect();
    assert_eq!(parts.len(), 3);
    let day: u32 = parts[0].parse().unwrap();
    assert!((1..=31).contains(&day));
    assert!(!parts[0].starts_with('0'));
    assert_eq!(parts[1].len(), 2);
    let month: u32 = parts[1].parse().unwrap();
    assert!((1..=12).contains(&month));
    assert_eq!(parts[2].len(), 4);
}

#[test]
fn engine_send_hour_shape() {
    let tz = s("-3:00");
    let out = apply_function(&FunctionKind::SendHour, s(""), Some(&tz));
    assert_eq!(out.len(), 5);
    let parts: Vec<&str> = out.split(':').collect();
    assert_eq!(parts.len(), 2);
    let h: u32 = parts[0].parse().unwrap();
    let m: u32 = parts[1].parse().unwrap();
    assert!(h < 24);
    assert!(m < 60);
}

#[test]
fn engine_send_hour_unparseable_timezone_defaults() {
    let tz = s("abc");
    let out = apply_function(&FunctionKind::SendHour, s(""), Some(&tz));
    assert_eq!(out.len(), 5);
}

#[test]
fn function_index_resolution() {
    let headers = vec![s("name"), s("city")];
    let sp = fspec("x", FunctionKind::Upcase, Some("city"), None);
    assert_eq!(get_function_index(&sp, &headers), Some(1));
    let sp_none = fspec("x", FunctionKind::Upcase, None, None);
    assert_eq!(get_function_index(&sp_none, &headers), None);
    let sp_missing = fspec("x", FunctionKind::Upcase, Some("zzz"), None);
    assert_eq!(get_function_index(&sp_missing, &headers), None);
}

#[test]
fn fill_row_appends_generated_cells() {
    let mut new_row = vec![s("555")];
    let functions = vec![fspec("city_up", FunctionKind::Upcase, Some("city"), None)];
    let row = vec![s("recife")];
    let headers = vec![s("city")];
    fill_row(&mut new_row, &functions, &row, &headers);
    assert_eq!(new_row, vec![s("555"), s("RECIFE")]);
}

#[test]
fn fill_row_missing_source_yields_empty_input() {
    let mut new_row = Vec::new();
    let functions = vec![fspec("up", FunctionKind::Upcase, Some("nope"), None)];
    let row = vec![s("recife")];
    let headers = vec![s("city")];
    fill_row(&mut new_row, &functions, &row, &headers);
    assert_eq!(new_row, vec![s("")]);
}

#[test]
fn pipeline_without_functions_passes_columns_through() {
    let input = "phone,city\n11 97205 7032,recife\n";
    let out = process_csv(input, "BR", &Vec::new()).unwrap();
    assert_eq!(out, "destination;city\n5511972057032;recife\n");
}

#[test]
fn pipeline_row_count_is_preserved() {
    let input = "phone,a\n1,x\n2,y\n3,z\n";
    let out = process_csv(input, "ZZ", &Vec::new()).unwrap();
    assert_eq!(out.lines().count(), 4);
    assert_eq!(out.lines().next().unwrap(), "destination;a");
}

#[test]
fn pipeline_with_one_function_consumes_source_column() {
    let input = "phone,city\n5511972057032,recife\n";
    let functions = vec![fspec("city_up", FunctionKind::Upcase, Some("city"), None)];
    let out = process_csv(input, "BR", &functions).unwrap();
    assert_eq!(out, "destination;city_up\n5511972057032;RECIFE\n");
}

#[test]
fn pipeline_keeps_leftover_columns_after_generated_ones() {
    let input = "phone;city;age\n11 97205 7032;recife;30\n";
    let functions = vec![fspec("city_up", FunctionKind::Upcase, Some("city"), None)];
    let out = process_csv(input, "BR", &functions).unwrap();
    assert_eq!(out, "destination;city_up;age\n5511972057032;RECIFE;30\n");
}

#[test]
fn pipeline_empty_input_fails_separator_detection() {
    assert_eq!(process_csv("", "BR", &Vec::new()), Err(CsvError::SeparatorError));
}

#[test]
fn pipeline_reports_header_error_on_stray_quote() {
    assert_eq!(process_csv("a\"b,c\nx,y\n", "BR", &Vec::new()), Err(CsvError::HeaderError));
}

#[test]
fn pipeline_reports_empty_header() {
    assert_eq!(process_csv("a,,c\n1,2,3\n", "BR", &Vec::new()), Err(CsvError::EmptyHeaderError));
}

#[test]
fn pipeline_reports_duplicate_header() {
    assert_eq!(process_csv("a,b,a\n1,2,3\n", "BR", &Vec::new()), Err(CsvError::DuplicateHeaderError));
}

#[test]
fn pipeline_reports_row_format_on_field_count_mismatch() {
    assert_eq!(process_csv("a,b\n1,2,3\n", "BR", &Vec::new()), Err(CsvError::RowFormatError));
}

#[test]
fn pipeline_reports_row_format_on_bad_quoting() {
    assert_eq!(process_csv("a,b\n\"x,2\n", "BR", &Vec::new()), Err(CsvError::RowFormatError));
}

#[test]
fn ingestion_accepts_quoted_fields_with_embedded_delimiters() {
    let parsed = create_csv_data("h1,h2\n\"a,b\",\"say \"\"hi\"\"\"\n", SEP_COMMA).unwrap();
    assert_eq!(parsed.placeholders, vec![s("h1"), s("h2")]);
    assert_eq!(parsed.data[0], vec![s("a,b"), s("say \"hi\"")]);
}

#[test]
fn ingestion_accepts_zero_data_rows() {
    let parsed = create_csv_data("h1,h2\n", SEP_COMMA).unwrap();
    assert_eq!(parsed.placeholders.len(), 2);
    assert_eq!(parsed.data.len(), 0);
}

#[test]
fn ingestion_accepts_crlf_lines() {
    let parsed = create_csv_data("h1,h2\r\n1,2\r\n3,4\r\n", SEP_COMMA).unwrap();
    assert_eq!(parsed.placeholders, vec![s("h1"), s("h2")]);
    assert_eq!(parsed.data, vec![vec![s("1"), s("2")], vec![s("3"), s("4")]]);
}

#[test]
fn ingestion_accepts_bare_carriage_return_terminators() {
    let parsed = create_csv_data("h1,h2\r1,2\r", SEP_COMMA).unwrap();
    assert_eq!(parsed.placeholders, vec![s("h1"), s("h2")]);
    assert_eq!(parsed.data, vec![vec![s("1"), s("2")]]);
}

#[test]
fn ingestion_skips_blank_lines() {
    let parsed = create_csv_data("\nh1,h2\n\n1,2\n\r\n3,4\n\n", SEP_COMMA).unwrap();
    assert_eq!(parsed.placeholders, vec![s("h1"), s("h2")]);
    assert_eq!(parsed.data, vec![vec![s("1"), s("2")], vec![s("3"), s("4")]]);
}

#[test]
fn pipeline_handles_crlf_input() {
    let input = "phone,city\r\n11 97205 7032,recife\r\n";
    let out = process_csv(input, "BR", &Vec::new()).unwrap();
    assert_eq!(out, "destination;city\n5511972057032;recife\n");
}

#[test]
fn pipeline_resolves_last_column_of_crlf_input() {
    let input = "phone,city\r\n5511972057032,recife\r\n";
    let functions = vec![fspec("city_up", FunctionKind::Upcase, Some("city"), None)];
    let out = process_csv(input, "BR", &functions).unwrap();
    assert_eq!(out, "destination;city_up\n5511972057032;RECIFE\n");
}

#[test]
fn serializer_quotes_a_lone_empty_field() {
    let text = to_text(vec![vec![s("h")], vec![s("")]]).unwrap();
    assert_eq!(text, "h\n\"\"\n");
}

#[test]
fn round_trip_keeps_a_row_of_one_empty_field() {
    let table = vec![vec![s("h")], vec![s("")], vec![s("x")]];
    let text = to_text(table).unwrap();
    let parsed = create_csv_data(&text, SEP_SEMICOLON).unwrap();
    assert_eq!(parsed.placeholders, vec![s("h")]);
    assert_eq!(parsed.data, vec![vec![s("")], vec![s("x")]]);
}

#[test]
fn quoted_fields_keep_embedded_crlf() {
    let parsed = create_csv_data("h1,h2\n\"a\r\nb\",c\n", SEP_COMMA).unwrap();
    assert_eq!(parsed.data, vec![vec![s("a\r\nb"), s("c")]]);
}
