use checkbe::diagnostics::Severity;
use checkbe::driver::{check_source_path, parse_source};

#[test]
fn source_paths_need_the_checkbe_extension() {
    assert_eq!(check_source_path("examples/hello.checkbe"), Ok(()));
    assert_eq!(
        check_source_path("examples/hello.txt"),
        Err("Expected an input file with .checkbe extension, got: examples/hello.txt".to_string())
    );
    assert!(check_source_path("checkbe").is_err());
}

#[test]
fn a_clean_source_parses() {
    let (diagnostics, parsed) = parse_source("body Application {\n  func main() {\n  }\n}\n");
    assert!(!diagnostics.has_errors());
    let program = parsed.expect("program");
    assert_eq!(program.body.items.len(), 1);
}

#[test]
fn lexical_errors_stop_before_parsing() {
    let (diagnostics, parsed) = parse_source("body Application { let string s = \"open");
    assert!(diagnostics.has_errors());
    assert_eq!(parsed.err(), Some("Lexical analysis failed".to_string()));
}

#[test]
fn parse_errors_are_reported() {
    let (diagnostics, parsed) = parse_source("body Application {\n  func main( {\n}\n");
    assert!(diagnostics.items().iter().any(|d| d.severity == Severity::Error));
    assert_eq!(parsed.err(), Some("Parsing failed".to_string()));
}

#[test]
fn recovered_parse_errors_still_stop() {
    let (diagnostics, parsed) = parse_source("body Application {
  oops
  func main() {
  }
}
");
    assert!(diagnostics.has_errors());
    assert_eq!(parsed.err(), Some("Parsing failed".to_string()));
}

#[test]
fn a_declaration_needs_a_type() {
    let (diagnostics, parsed) = parse_source("body Application {
  func main() {
    let x = 10
  }
}
");
    assert_eq!(parsed.err(), Some("Parsing failed".to_string()));
    assert!(diagnostics
        .items()
        .iter()
        .any(|d| d.severity == Severity::Error && d.message == "Expected type in variable declaration"));
}

#[test]
fn a_file_holds_one_body() {
    let (diagnostics, parsed) = parse_source("import Bridge body A { } body B { }");
    assert_eq!(parsed.err(), Some("Parsing failed".to_string()));
    assert!(diagnostics
        .items()
        .iter()
        .any(|d| d.severity == Severity::Error && d.message == "Expected end of input after body"));
}
