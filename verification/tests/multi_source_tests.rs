use checkbe::ast::{CallTarget, Expr, Item, Program, Stmt};
use checkbe::diagnostics::{Diagnostics, Severity};
use checkbe::lexer::lex;
use checkbe::multi_source::{
    merge_sources, normalize_module_name, sanitize_symbol, to_pascal_case, trim_body_suffix,
    ParsedSource,
};
use checkbe::parser::parse;

fn source(path: &str, text: &str) -> ParsedSource {
    let mut diagnostics = Diagnostics::new();
    let tokens = lex(text, &mut diagnostics);
    let program = parse(tokens, &mut diagnostics).expect("parsing failed");
    assert!(!diagnostics.has_errors());
    ParsedSource { path: path.to_string(), program }
}

fn function_names(program: &Program) -> Vec<String> {
    program
        .body
        .items
        .iter()
        .filter_map(|item| match item {
            Item::Func(f) => Some(f.name.clone()),
            _ => None,
        })
        .collect()
}

#[test]
fn trims_body_suffix() {
    assert_eq!(trim_body_suffix("MathBody"), "Math");
    assert_eq!(trim_body_suffix("Body"), "Body");
    assert_eq!(trim_body_suffix("Application"), "Application");
}

#[test]
fn sanitizes_symbols() {
    assert_eq!(sanitize_symbol("my-mod.v2"), "my_mod_v2");
    assert_eq!(sanitize_symbol(""), "Module");
    assert_eq!(sanitize_symbol("Ok_1"), "Ok_1");
}

#[test]
fn normalizes_module_names() {
    assert_eq!(normalize_module_name("My_Math-Lib"), "mymathlib");
    assert_eq!(normalize_module_name("__"), "");
}

#[test]
fn pascal_cases_stems() {
    assert_eq!(to_pascal_case("string_utils"), "StringUtils");
    assert_eq!(to_pascal_case("my-file name"), "MyFileName");
    assert_eq!(to_pascal_case("math"), "Math");
}

#[test]
fn no_sources_is_an_error() {
    let mut diagnostics = Diagnostics::new();
    assert!(merge_sources(&[], &mut diagnostics).is_none());
    assert_eq!(diagnostics.items().len(), 1);
    assert_eq!(diagnostics.items()[0].message, "No Checkbe input files were provided");
    assert_eq!(diagnostics.items()[0].severity, Severity::Error);
}

#[test]
fn entry_keeps_names_and_others_are_prefixed() {
    let main = source(
        "main.checkbe",
        "import Bridge\nimport Math\nbody Application {\n  func main() {\n    Bridge.println(Math.square(3))\n  }\n}\n",
    );
    let math = source(
        "math.checkbe",
        "import Bridge\nbody MathBody {\n  func square(x: int) -> int {\n    return helper(x) * x\n  }\n  func helper(x: int) -> int {\n    return x\n  }\n}\n",
    );
    let mut diagnostics = Diagnostics::new();
    let program = merge_sources(&[main, math], &mut diagnostics).expect("merge failed");
    assert!(!diagnostics.has_errors());
    assert_eq!(program.body.name, "Application");
    assert_eq!(function_names(&program), vec!["main", "Math__square", "Math__helper"]);
    assert_eq!(program.imports.len(), 1);
    assert_eq!(program.imports[0].module, "Bridge");

    let Item::Func(main_fn) = &program.body.items[0] else { panic!("expected main") };
    let Stmt::Expr { expr, .. } = &main_fn.body[0] else { panic!("expected a call") };
    let Expr::Call { args, .. } = expr else { panic!("expected a call") };
    let Expr::Call { callee, .. } = &args[0] else { panic!("expected a call") };
    assert!(matches!(callee, CallTarget::Name(n) if n == "Math__square"));

    let Item::Func(square) = &program.body.items[1] else { panic!("expected square") };
    let Stmt::Return { value: Some(Expr::Binary { left, .. }), .. } = &square.body[0] else {
        panic!("expected a return")
    };
    let Expr::Call { callee, .. } = left.as_ref() else { panic!("expected a call") };
    assert!(matches!(callee, CallTarget::Name(n) if n == "Math__helper"));
}

#[test]
fn missing_export_is_reported() {
    let main = source(
        "main.checkbe",
        "import Math\nbody Application {\n  func main() {\n    Math.cube(2)\n  }\n}\n",
    );
    let math = source("math.checkbe", "body MathBody {\n  func square(x: int) -> int {\n    return x * x\n  }\n}\n");
    let mut diagnostics = Diagnostics::new();
    assert!(merge_sources(&[main, math], &mut diagnostics).is_none());
    assert!(diagnostics.has_errors());
    assert_eq!(
        diagnostics.items()[0].message,
        "main.checkbe:4:5: Module 'Math' does not export function 'cube'"
    );
}

#[test]
fn runtime_imports_are_kept_once() {
    let a = source("a.checkbe", "import Bridge\nbody Application {\n  func main() {\n  }\n}\n");
    let b = source("b.checkbe", "import Bridge\nbody HelperBody {\n  func f() {\n  }\n}\n");
    let mut diagnostics = Diagnostics::new();
    let program = merge_sources(&[a, b], &mut diagnostics).expect("merge failed");
    assert_eq!(program.imports.len(), 1);
    assert_eq!(program.body.items.len(), 2);
}

#[test]
fn ambiguous_alias_is_reported() {
    let a = source("x.checkbe", "body Application {\n  func main() {\n  }\n}\n");
    let b = source("one.checkbe", "body ToolBody {\n  func f() {\n  }\n}\n");
    let c = source("two.checkbe", "body Tool_Body {\n  func g() {\n  }\n}\n");
    let mut diagnostics = Diagnostics::new();
    assert!(merge_sources(&[a, b, c], &mut diagnostics).is_none());
    assert!(diagnostics
        .items()
        .iter()
        .any(|d| d.message.starts_with("Ambiguous local module alias")));
}

#[test]
fn own_module_import_stays_a_runtime_import() {
    let main = source("main.checkbe", "body Application {\n  func main() {\n  }\n}\n");
    let math = source(
        "math.checkbe",
        "import Math\nbody MathBody {\n  func square(x: int) -> int {\n    return Math.abs(x)\n  }\n}\n",
    );
    let mut diagnostics = Diagnostics::new();
    let program = merge_sources(&[main, math], &mut diagnostics).expect("merge failed");
    assert_eq!(program.imports.len(), 1);
    assert_eq!(program.imports[0].module, "Math");
    let Item::Func(square) = &program.body.items[1] else { panic!("expected square") };
    let Stmt::Return { value: Some(Expr::Call { callee, .. }), .. } = &square.body[0] else {
        panic!("expected a call")
    };
    assert!(matches!(callee, CallTarget::Qualified { module, name } if module == "Math" && name == "abs"));
}

#[test]
fn qualified_call_without_import_is_kept() {
    let main = source(
        "main.checkbe",
        "body Application {\n  func main() {\n    Util.run()\n  }\n}\n",
    );
    let util = source("util.checkbe", "body UtilBody {\n  func run() {\n  }\n}\n");
    let mut diagnostics = Diagnostics::new();
    let program = merge_sources(&[main, util], &mut diagnostics).expect("merge failed");
    let Item::Func(main_fn) = &program.body.items[0] else { panic!("expected main") };
    let Stmt::Expr { expr: Expr::Call { callee, .. }, .. } = &main_fn.body[0] else {
        panic!("expected a call")
    };
    assert!(matches!(callee, CallTarget::Qualified { module, .. } if module == "Util"));
    assert_eq!(function_names(&program), vec!["main", "Util__run"]);
}

#[test]
fn import_by_file_stem_alias_is_local() {
    let main = source(
        "main.checkbe",
        "import string_utils\nbody Application {\n  func main() {\n    Text.shout()\n    StringUtils.shout()\n  }\n}\n",
    );
    let util = source("lib/string_utils.checkbe", "body TextBody {\n  func shout() {\n  }\n}\n");
    let mut diagnostics = Diagnostics::new();
    let program = merge_sources(&[main, util], &mut diagnostics).expect("merge failed");
    assert!(program.imports.is_empty());
    let Item::Func(main_fn) = &program.body.items[0] else { panic!("expected main") };
    let Stmt::Expr { expr: Expr::Call { callee, .. }, .. } = &main_fn.body[0] else {
        panic!("expected a call")
    };
    assert!(matches!(callee, CallTarget::Name(n) if n == "Text__shout"));
    // Qualified calls are matched against module names, not against file-stem aliases.
    let Stmt::Expr { expr: Expr::Call { callee, .. }, .. } = &main_fn.body[1] else {
        panic!("expected a call")
    };
    assert!(matches!(callee, CallTarget::Qualified { module, .. } if module == "StringUtils"));
}
