
use contact_csv::csv_content_reader;

fn pairs(v: &[(String, String)]) -> Vec<(&str, &str)> {
    v.iter().map(|p| (p.0.as_str(), p.1.as_str())).collect()
}

#[test]
fn content_reader_accepts_clean_content() {
    let fd = csv_content_reader("phone,name\n123,bob\n");
    assert!(fd.valid);
    assert!(fd.errors.is_empty());
    assert_eq!(pairs(&fd.sample), vec![("phone", "123"), ("name", "bob")]);
}

#[test]
fn content_reader_collects_all_diagnostics() {
    let fd = csv_content_reader("phone,name\nabc,bob\n12,x,y\n");
    assert!(!fd.valid);
    assert_eq!(
        fd.errors,
        vec![
            "Error on line 2: abc invalid telephone\n".to_string(),
            "Error on line 3: invalid row\n".to_string(),
        ]
    );
    assert_eq!(pairs(&fd.sample), vec![("phone", "abc"), ("name", "bob")]);
}

#[test]
fn content_reader_flags_missing_rows() {
    let fd = csv_content_reader("phone,name\n");
    assert!(!fd.valid);
    assert_eq!(fd.errors, vec!["no_rows_found".to_string()]);
    assert!(fd.sample.is_empty());
}

#[test]
fn content_reader_reports_header_problems_as_diagnostics() {
    let fd = csv_content_reader(",a\n123,2\n");
    assert!(!fd.valid);
    assert_eq!(fd.errors, vec!["empty_header".to_string()]);
    assert_eq!(pairs(&fd.sample), vec![("", "123"), ("a", "2")]);
}

#[test]
fn content_reader_allows_whitespace_around_phone() {
    let fd = csv_content_reader("phone;name\n 123 ;bob\n");
    assert!(fd.valid, "{:?}", fd.errors);
}

#[test]
fn content_reader_rejects_empty_content() {
    let fd = csv_content_reader("");
    assert!(!fd.valid);
    assert_eq!(
        fd.errors,
        vec!["header_error".to_string(), "no_rows_found".to_string()]
    );
}
