use checkbe::cli::{
    default_output_path, diagnostic_report, parse_cli_args, style_tag, success_tag, usage,
    CliCommand,
};
use checkbe::diagnostics::{Diagnostics, Severity};
use checkbe::span::Span;

fn args(items: &[&str]) -> Vec<String> {
    items.iter().map(|s| s.to_string()).collect()
}

#[test]
fn compile_with_output() {
    match parse_cli_args(&args(&["checkbe", "main.checkbe", "util.checkbe", "-o", "app"])).unwrap() {
        CliCommand::Compile { source_paths, output_path } => {
            assert_eq!(source_paths, vec!["main.checkbe", "util.checkbe"]);
            assert_eq!(output_path, "app");
        }
        _ => panic!("expected compile"),
    }
}

#[test]
fn output_defaults_to_first_stem() {
    match parse_cli_args(&args(&["checkbe", "dir/hello.checkbe"])).unwrap() {
        CliCommand::Compile { output_path, .. } => assert_eq!(output_path, "hello"),
        _ => panic!("expected compile"),
    }
    assert_eq!(default_output_path("a/b/prog.checkbe"), "prog");
    assert_eq!(default_output_path(""), "a.out");
}

#[test]
fn install_defaults_to_usr_local() {
    match parse_cli_args(&args(&["checkbe", "--install"])).unwrap() {
        CliCommand::Install { prefix } => assert_eq!(prefix, "/usr/local"),
        _ => panic!("expected install"),
    }
    match parse_cli_args(&args(&["checkbe", "--install", "--prefix", "/opt/x"])).unwrap() {
        CliCommand::Install { prefix } => assert_eq!(prefix, "/opt/x"),
        _ => panic!("expected install"),
    }
}

#[test]
fn help_and_missing_arguments_give_usage() {
    let text = usage();
    assert!(text.starts_with("Usage:\n  checkbe <source.checkbe>"));
    assert_eq!(parse_cli_args(&args(&["checkbe"])).unwrap_err(), text);
    assert_eq!(parse_cli_args(&args(&["checkbe", "--help"])).unwrap_err(), text);
    assert_eq!(parse_cli_args(&args(&["checkbe", "-h"])).unwrap_err(), text);
    assert_eq!(parse_cli_args(&args(&["checkbe", "-o", "x"])).unwrap_err(), text);
    assert_eq!(parse_cli_args(&args(&["checkbe", "a.checkbe", "-o"])).unwrap_err(), text);
}

#[test]
fn unknown_flags_are_refused() {
    let error = parse_cli_args(&args(&["checkbe", "a.checkbe", "--fast"])).unwrap_err();
    assert_eq!(error, format!("Unknown argument '--fast'.\n{}", usage()));
    let error = parse_cli_args(&args(&["checkbe", "--install", "--bin"])).unwrap_err();
    assert_eq!(error, format!("Unknown argument '--bin'.\n{}", usage()));
}

#[test]
fn tags_are_colored() {
    assert_eq!(style_tag(Severity::Warning), "\x1b[43;97;1m[WARN]\x1b[0m");
    assert_eq!(style_tag(Severity::Error), "\x1b[41;97;1m[ERROR]\x1b[0m");
    assert_eq!(success_tag(), "\x1b[42;97;1m[SUCCESS]\x1b[0m");
}

#[test]
fn diagnostics_are_reported_with_locations_and_summary() {
    let mut diagnostics = Diagnostics::new();
    diagnostics.warning(Some(Span::new(3, 7)), "careful".to_string());
    diagnostics.error(None, "broken".to_string());
    let lines = diagnostic_report("main.checkbe", &diagnostics);
    assert_eq!(
        lines,
        vec![
            "\x1b[43;97;1m[WARN]\x1b[0m main.checkbe:3:7: careful".to_string(),
            "\x1b[41;97;1m[ERROR]\x1b[0m broken".to_string(),
            "\x1b[41;97;1m[ERROR]\x1b[0m Diagnostics: 1 warning(s), 1 error(s)".to_string(),
        ]
    );
}

#[test]
fn no_diagnostics_give_no_lines() {
    let diagnostics = Diagnostics::new();
    assert!(diagnostic_report("x.checkbe", &diagnostics).is_empty());
}
