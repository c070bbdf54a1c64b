use checkbe::ast::{ImportDecl, ValueType};
use checkbe::diagnostics::{Diagnostics, Severity};
use checkbe::module_system::{
    ImportLoader, LoadedModule, ModuleFunctionOverloadSpec, ModuleFunctionSpec, ModuleLookup,
    ModuleRegistry, ModuleSpec,
};
use checkbe::span::Span;

fn math_spec(name: &str) -> ModuleSpec {
    ModuleSpec {
        name: name.to_string(),
        library: "math".to_string(),
        native_sources: vec![],
        functions: vec![ModuleFunctionSpec {
            name: "max".to_string(),
            overloads: vec![
                ModuleFunctionOverloadSpec {
                    args: vec!["int".to_string(), "int".to_string()],
                    return_type: "int".to_string(),
                    symbol: "math_max_i".to_string(),
                },
                ModuleFunctionOverloadSpec {
                    args: vec!["float".to_string(), "float".to_string()],
                    return_type: "float".to_string(),
                    symbol: "math_max_f".to_string(),
                },
            ],
        }],
    }
}

fn registry() -> ModuleRegistry {
    let mut r = ModuleRegistry::new();
    r.insert("Math".to_string(), LoadedModule { spec: math_spec("Math"), root_dir: "m".to_string() });
    r
}

#[test]
fn resolves_the_matching_overload() {
    let r = registry();
    let call = r.resolve_call("Math", "max", &[ValueType::Float, ValueType::Float]).unwrap();
    assert_eq!(call.symbol, "math_max_f");
    assert_eq!(call.return_type, ValueType::Float);
    assert_eq!(call.argument_types, vec![ValueType::Float, ValueType::Float]);
}

#[test]
fn mixed_arguments_do_not_resolve() {
    let r = registry();
    assert!(r.resolve_call("Math", "max", &[ValueType::Int, ValueType::Float]).is_none());
    assert!(r.resolve_call("Math", "min", &[]).is_none());
    assert!(r.resolve_call("Other", "max", &[]).is_none());
}

#[test]
fn lists_expected_signatures() {
    let r = registry();
    assert_eq!(
        r.expected_signatures("Math", "max"),
        vec!["max(int, int) -> int".to_string(), "max(float, float) -> float".to_string()]
    );
    assert!(r.expected_signatures("Math", "nope").is_empty());
}

#[test]
fn duplicate_import_warns_and_is_skipped() {
    let mut loader = ImportLoader::new();
    let mut diagnostics = Diagnostics::new();
    let import = ImportDecl { module: "Math".to_string(), span: Span::new(1, 1) };
    assert!(loader.begin(&import, &mut diagnostics));
    loader.finish(
        &import,
        ModuleLookup::Found { path: "m/module.toml".to_string(), spec: math_spec("Math"), root_dir: "m".to_string() },
        &mut diagnostics,
    );
    assert!(!loader.begin(&import, &mut diagnostics));
    assert_eq!(diagnostics.items().len(), 1);
    assert_eq!(diagnostics.items()[0].severity, Severity::Warning);
    assert_eq!(diagnostics.items()[0].message, "Duplicate import of module 'Math'");
    let registry = loader.into_registry();
    assert!(registry.contains("Math"));
}

#[test]
fn missing_and_misnamed_modules_are_errors() {
    let mut loader = ImportLoader::new();
    let mut diagnostics = Diagnostics::new();
    let import = ImportDecl { module: "Gfx".to_string(), span: Span::new(2, 1) };
    assert!(loader.begin(&import, &mut diagnostics));
    loader.finish(&import, ModuleLookup::NotFound, &mut diagnostics);
    assert_eq!(
        diagnostics.items()[0].message,
        "Module 'Gfx' not found. Expected runtime/modules/Gfx/module.toml"
    );
    let other = ImportDecl { module: "Net".to_string(), span: Span::new(3, 1) };
    assert!(loader.begin(&other, &mut diagnostics));
    loader.finish(
        &other,
        ModuleLookup::Found { path: "n/module.toml".to_string(), spec: math_spec("Math"), root_dir: "n".to_string() },
        &mut diagnostics,
    );
    assert_eq!(diagnostics.items()[1].message, "Import 'Net' points to module 'Math' in n/module.toml");
    assert!(!loader.into_registry().contains("Net"));
}
