use checkbe::ast::{BinaryOp, ValueType};
use checkbe::codegen_types::{unify_array_element_type, unify_ternary_type};
use checkbe::diagnostics::Diagnostics;
use checkbe::sema::{analyze_binary_expr, is_assignable, is_numeric, op_name, Operation, PermissionSet};
use checkbe::sorting::{sorted_unique, str_less};
use checkbe::span::Span;

fn atoms(items: &[&str]) -> Vec<String> {
    items.iter().map(|s| s.to_string()).collect()
}

#[test]
fn read_atom_allows_only_reads() {
    let (set, warnings) = PermissionSet::from_atoms(atoms(&["CAP_READ"]));
    assert!(warnings.is_empty());
    assert!(set.allows(Operation::Read));
    assert!(!set.allows(Operation::Write));
}

#[test]
fn no_atoms_allow_nothing() {
    let (set, warnings) = PermissionSet::from_atoms(vec![]);
    assert!(warnings.is_empty());
    assert!(!set.allows(Operation::Read));
    assert!(!set.allows(Operation::Write));
}

#[test]
fn deny_all_beats_allows() {
    let (set, _) = PermissionSet::from_atoms(atoms(&["FULL_ACCESS", "DENY_ALL"]));
    assert!(!set.allows(Operation::Read));
    assert!(!set.allows(Operation::Write));
    let (set, _) = PermissionSet::from_atoms(atoms(&["all"]));
    assert!(set.allows(Operation::Read) && set.allows(Operation::Write));
}

#[test]
fn leading_bang_denies() {
    let (set, _) = PermissionSet::from_atoms(atoms(&["ALL", "!write"]));
    assert!(set.allows(Operation::Read));
    assert!(!set.allows(Operation::Write));
}

#[test]
fn conflicts_and_unknown_atoms_warn() {
    let (_, warnings) = PermissionSet::from_atoms(atoms(&["read", "no_read", "xyz"]));
    assert_eq!(
        warnings,
        vec![
            "Permission 'xyz' does not affect read/write/all and will be ignored".to_string(),
            "Conflicting permissions: both allow read and deny read".to_string(),
        ]
    );
}

#[test]
fn assignability_rules() {
    assert!(is_assignable(&ValueType::Float, &ValueType::Int));
    assert!(!is_assignable(&ValueType::Int, &ValueType::Float));
    assert!(is_assignable(
        &ValueType::Array(Box::new(ValueType::Float)),
        &ValueType::Array(Box::new(ValueType::Int))
    ));
    assert!(is_assignable(&ValueType::String, &ValueType::String));
    assert!(is_numeric(&ValueType::Int) && !is_numeric(&ValueType::Bool));
    assert_eq!(op_name(Operation::Write), "write");
}

#[test]
fn unification_promotes_numbers() {
    assert_eq!(unify_ternary_type(&ValueType::Int, &ValueType::Float), Some(ValueType::Float));
    assert_eq!(unify_ternary_type(&ValueType::Float, &ValueType::Int), Some(ValueType::Float));
    assert_eq!(unify_array_element_type(&ValueType::Bool, &ValueType::Bool), Some(ValueType::Bool));
    assert_eq!(unify_array_element_type(&ValueType::Bool, &ValueType::Int), None);
}

#[test]
fn binary_operator_types() {
    let mut d = Diagnostics::new();
    let span = Span::new(1, 1);
    assert_eq!(analyze_binary_expr(&BinaryOp::Add, &ValueType::Int, &ValueType::Int, span, &mut d), Some(ValueType::Int));
    assert_eq!(analyze_binary_expr(&BinaryOp::Mul, &ValueType::Int, &ValueType::Float, span, &mut d), Some(ValueType::Float));
    assert_eq!(analyze_binary_expr(&BinaryOp::Less, &ValueType::Int, &ValueType::Float, span, &mut d), Some(ValueType::Bool));
    assert_eq!(d.items().len(), 0);
    assert_eq!(analyze_binary_expr(&BinaryOp::And, &ValueType::Int, &ValueType::Bool, span, &mut d), None);
    assert_eq!(d.items()[0].message, "Logical operator requires bool, got 'int' and 'bool'");
}

#[test]
fn sorting_is_lexicographic_and_dedups() {
    assert!(str_less("Abc", "abc"));
    assert!(str_less("ab", "abc"));
    assert!(!str_less("b", "abc"));
    let sorted = sorted_unique(&atoms(&["math", "Math", "MathBody", "math"]));
    assert_eq!(sorted, atoms(&["Math", "MathBody", "math"]));
}
