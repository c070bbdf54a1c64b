use checkbe::diagnostics::{Diagnostics, Severity};
use checkbe::lexer::lex;
use checkbe::module_system::{
    LoadedModule, ModuleFunctionOverloadSpec, ModuleFunctionSpec, ModuleRegistry, ModuleSpec,
};
use checkbe::parser::parse;
use checkbe::sema::analyze;

fn bridge_registry() -> ModuleRegistry {
    let mut registry = ModuleRegistry::new();
    let spec = ModuleSpec {
        name: "Bridge".to_string(),
        library: "checkbe_bridge".to_string(),
        native_sources: vec!["bridge.c".to_string()],
        functions: vec![ModuleFunctionSpec {
            name: "readln".to_string(),
            overloads: vec![ModuleFunctionOverloadSpec {
                args: vec![],
                return_type: "string".to_string(),
                symbol: "cb_bridge_readln".to_string(),
            }],
        }],
    };
    registry.insert(
        "Bridge".to_string(),
        LoadedModule { spec, root_dir: "runtime/modules/Bridge".to_string() },
    );
    registry
}

/// Runs the front end on a program; gives whether analysis succeeded and the
/// messages reported.
fn check(source: &str) -> (bool, Vec<(Severity, String)>) {
    let mut diagnostics = Diagnostics::new();
    let tokens = lex(source, &mut diagnostics);
    assert!(!diagnostics.has_errors(), "lexing failed");
    let program = parse(tokens, &mut diagnostics).expect("parsing failed");
    let model = analyze(&program, bridge_registry(), &mut diagnostics);
    let messages = diagnostics
        .items()
        .iter()
        .map(|d| (d.severity, d.message.clone()))
        .collect();
    (model.is_some(), messages)
}

fn has_error(messages: &[(Severity, String)], text: &str) -> bool {
    messages.iter().any(|(s, m)| *s == Severity::Error && m.contains(text))
}

#[test]
fn hello_world_passes() {
    let (ok, messages) = check(
        "import Bridge\n\nbody Application {\n    func main() {\n        Bridge.println(\"Hello\")\n    }\n}\n",
    );
    assert!(ok, "{:?}", messages);
    assert!(messages.is_empty());
}

#[test]
fn argc_argv_main_passes() {
    let (ok, messages) = check(
        "import Bridge\nbody Application {\n  func main(argc: int, argv: string[]) {\n    Bridge.println(\"argc = \\(argc)\")\n    if (argc > 1) {\n      Bridge.println(\"argv[1] = \\(argv[1])\")\n    }\n  }\n}\n",
    );
    assert!(ok, "{:?}", messages);
}

#[test]
fn missing_main_is_reported() {
    let (ok, messages) = check("body Application {\n  func helper() {\n  }\n}\n");
    assert!(!ok);
    assert!(has_error(&messages, "Required function main() is missing"));
}

#[test]
fn main_with_wrong_signature_is_reported() {
    let (ok, messages) = check("body Application {\n  func main(x: int) -> int {\n    return x\n  }\n}\n");
    assert!(!ok);
    assert!(has_error(&messages, "main() must be either main() or main(argc: int, argv: string[])"));
    assert!(has_error(&messages, "main() must have return type void"));
}

#[test]
fn arrays_and_loops_pass() {
    let (ok, messages) = check(
        "import Bridge\nbody Application {\n  func main() {\n    let int[] values = [1, 2, 3]\n    values[1] = 99\n    for (let int i = 0; i < 3; i = i + 1) {\n      Bridge.println(values[i])\n    }\n  }\n}\n",
    );
    assert!(ok, "{:?}", messages);
}

#[test]
fn type_mismatch_in_declaration_is_reported() {
    let (ok, messages) = check("body Application {\n  func main() {\n    let int x = \"text\"\n  }\n}\n");
    assert!(!ok);
    assert!(has_error(&messages, "Cannot initialize 'int' with value of type 'string'"));
}

#[test]
fn int_may_initialize_float() {
    let (ok, messages) = check("body Application {\n  func main() {\n    let float x = 1\n  }\n}\n");
    assert!(ok, "{:?}", messages);
}

#[test]
fn non_bool_condition_is_reported() {
    let (ok, messages) = check("body Application {\n  func main() {\n    if (1) {\n    }\n  }\n}\n");
    assert!(!ok);
    assert!(has_error(&messages, "If condition must be bool, got 'int'"));
}

#[test]
fn indexing_a_non_array_is_reported() {
    let (ok, messages) =
        check("body Application {\n  func main() {\n    let int x = 1\n    let int y = x[0]\n  }\n}\n");
    assert!(!ok);
    assert!(has_error(&messages, "Indexing is only valid for arrays, got 'int'"));
}

#[test]
fn empty_array_literal_is_reported() {
    let (ok, messages) = check("body Application {\n  func main() {\n    let int[] x = []\n  }\n}\n");
    assert!(!ok);
    assert!(has_error(&messages, "Empty array literal requires explicit type annotation"));
}

#[test]
fn missing_return_is_reported() {
    let (ok, messages) = check(
        "body Application {\n  func f() -> int {\n    let int x = 1\n  }\n  func main() {\n  }\n}\n",
    );
    assert!(!ok);
    assert!(has_error(&messages, "Function 'f' must return 'int' on at least one path"));
}

#[test]
fn argument_count_is_checked() {
    let (ok, messages) = check(
        "body Application {\n  func add(a: int, b: int) -> int {\n    return a + b\n  }\n  func main() {\n    let int x = add(1)\n  }\n}\n",
    );
    assert!(!ok);
    assert!(has_error(&messages, "Function 'add' expects 2 argument(s), got 1"));
}

#[test]
fn capability_blocks_writes() {
    let (ok, messages) = check(
        "import Bridge\nbody Application {\n  let capability roCap = new Capability(CAP_READ)\n  let:roCap int secret = 10\n  func main() {\n    Bridge.println(secret)\n    secret = 20\n  }\n}\n",
    );
    assert!(!ok);
    assert!(has_error(&messages, "Capability violation 'roCap': operation 'write' is not allowed (rule: CAP_READ)"));
}

#[test]
fn right_blocks_writes_in_function() {
    let (ok, messages) = check(
        "body Application {\n  let right roRight = new Right(RIGHT_READ)\n  let int counter = 0\n  let:roRight func bump() {\n    counter = counter + 1\n  }\n  func main() {\n    bump()\n  }\n}\n",
    );
    assert!(!ok);
    assert!(has_error(&messages, "Right violation: operation 'write' is not allowed (rule: RIGHT_READ)"));
}

#[test]
fn right_blocks_reads_in_function() {
    let (ok, messages) = check(
        "body Application {\n  let right woRight = new Right(RIGHT_WRITE)\n  let int counter = 0\n  let:woRight func peek() -> int {\n    return counter\n  }\n  func main() {\n    peek()\n  }\n}\n",
    );
    assert!(!ok);
    assert!(has_error(&messages, "Right violation: operation 'read' is not allowed (rule: RIGHT_WRITE)"));
}

#[test]
fn capability_blocks_reads() {
    let (ok, messages) = check(
        "import Bridge\nbody Application {\n  let capability woCap = new Capability(CAP_WRITE)\n  let:woCap int secret = 10\n  func main() {\n    secret = 20\n    Bridge.println(secret)\n  }\n}\n",
    );
    assert!(!ok);
    assert!(has_error(&messages, "Capability violation 'woCap': operation 'read' is not allowed (rule: CAP_WRITE)"));
}

#[test]
fn main_ignores_rights() {
    let (ok, messages) = check(
        "body Application {\n  let right roRight = new Right(RIGHT_READ)\n  let int counter = 0\n  let:roRight func main() {\n    counter = 1\n  }\n}\n",
    );
    assert!(ok, "{:?}", messages);
    assert!(messages
        .iter()
        .any(|(s, m)| *s == Severity::Warning && m == "Rights on main are ignored; main always has full rights"));
}

#[test]
fn unknown_permission_atom_warns() {
    let (ok, messages) = check(
        "body Application {\n  let capability c = new Capability(SOMETHING)\n  func main() {\n  }\n}\n",
    );
    assert!(ok, "{:?}", messages);
    assert!(messages.iter().any(|(s, m)| *s == Severity::Warning
        && m == "Permission 'SOMETHING' does not affect read/write/all and will be ignored"));
}

#[test]
fn bridge_println_rejects_arrays() {
    let (ok, messages) = check(
        "import Bridge\nbody Application {\n  func main() {\n    let int[] a = [1]\n    Bridge.println(a)\n  }\n}\n",
    );
    assert!(!ok);
    assert!(has_error(&messages, "Bridge.println does not support argument type 'array'"));
}

#[test]
fn module_overloads_are_checked() {
    let (ok, messages) = check(
        "import Bridge\nbody Application {\n  func main() {\n    let string line = Bridge.readln()\n    let string other = Bridge.readln(1)\n  }\n}\n",
    );
    assert!(!ok);
    assert!(has_error(&messages, "No matching signature found for call Bridge.readln(int). Available: readln() -> string"));
}

#[test]
fn unimported_module_is_reported() {
    let (ok, messages) = check("body Application {\n  func main() {\n    Other.run()\n  }\n}\n");
    assert!(!ok);
    assert!(has_error(&messages, "Module 'Other' is not imported"));
}

#[test]
fn interpolation_of_unknown_name_is_reported() {
    let (ok, messages) = check(
        "import Bridge\nbody Application {\n  func main() {\n    Bridge.println(\"x = \\(missing)\")\n  }\n}\n",
    );
    assert!(!ok);
    assert!(has_error(&messages, "Interpolation expression 'missing' is invalid"));
}

#[test]
fn ternary_promotes_numeric_branches() {
    let (ok, messages) = check(
        "body Application {\n  func main() {\n    let bool ok = true\n    let float n = ok ? 1 : 2.5\n  }\n}\n",
    );
    assert!(ok, "{:?}", messages);
}

#[test]
fn int_conversion_accepts_strings() {
    let (ok, messages) = check("body Application {\n  func main() {\n    let int n = Int(\"42\")\n  }\n}\n");
    assert!(ok, "{:?}", messages);
}

#[test]
fn duplicate_function_is_reported() {
    let (ok, messages) = check(
        "body Application {\n  func f() {\n  }\n  func f() {\n  }\n  func main() {\n  }\n}\n",
    );
    assert!(!ok);
    assert!(has_error(&messages, "Function 'f' is already declared"));
}

#[test]
fn block_locals_do_not_leak() {
    let (ok, messages) = check(
        "body Application {\n  func main() {\n    {\n      let int x = 1\n    }\n    let string x = \"later\"\n  }\n}\n",
    );
    assert!(ok, "{:?}", messages);
    assert!(messages.is_empty());
}

#[test]
fn sibling_blocks_may_reuse_names() {
    let (ok, messages) = check(
        "body Application {\n  func main() {\n    {\n      let int x = 1\n    }\n    {\n      let int x = 2\n    }\n  }\n}\n",
    );
    assert!(ok, "{:?}", messages);
}

#[test]
fn redeclared_local_is_reported() {
    let (ok, messages) = check(
        "body Application {\n  func main() {\n    let int x = 1\n    let int x = 2\n  }\n}\n",
    );
    assert!(!ok);
    assert!(has_error(&messages, "Local variable 'x' is already declared"));
}

#[test]
fn void_function_returning_value_is_reported() {
    let (ok, messages) = check("body Application {\n  func main() {\n    return 1\n  }\n}\n");
    assert!(!ok);
    assert!(has_error(&messages, "Void function cannot return a value"));
}

#[test]
fn bridge_sleep_needs_an_int() {
    let (ok, messages) = check(
        "import Bridge\nbody Application {\n  func main() {\n    Bridge.sleep(\"1\")\n  }\n}\n",
    );
    assert!(!ok);
    assert!(has_error(&messages, "Bridge.sleep expects int, got 'string'"));
}

#[test]
fn globals_are_typed_in_declaration_order() {
    let (ok, messages) = check(
        "body Application {\n  let int a = b\n  let int b = 1\n  func main() {\n  }\n}\n",
    );
    assert!(!ok);
    assert!(has_error(&messages, "Global variable 'b' is used before type is resolved (check declaration order)"));
}

#[test]
fn unknown_variable_is_reported() {
    let (ok, messages) = check("body App {\n  func main() {\n    let int x = y + 1\n  }\n}\n");
    assert!(!ok);
    assert!(has_error(&messages, "Unknown variable 'y'"));
}

#[test]
fn negating_a_bool_is_reported() {
    let (ok, messages) = check("body App {\n  func main() {\n    let int x = -true\n  }\n}\n");
    assert!(!ok);
    assert!(has_error(&messages, "Operator '-' is only valid for int/float, got 'bool'"));
}

#[test]
fn arrays_compare_for_equality() {
    let (ok, messages) = check(
        "body App {\n  func main() {\n    let int[] a = [1, 2]\n    let bool same = a == a\n  }\n}\n",
    );
    assert!(ok, "{:?}", messages);
}

#[test]
fn return_type_mismatch_is_named() {
    let (ok, messages) = check(
        "body App {\n  func f() -> int {\n    return true\n  }\n  func main() {\n  }\n}\n",
    );
    assert!(!ok);
    assert!(has_error(&messages, "Return type 'bool' is incompatible with 'int'"));
}
