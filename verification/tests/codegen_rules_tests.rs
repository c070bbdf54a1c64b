use checkbe::ast::ValueType;
use checkbe::codegen_types::{
    array_get_symbol, array_new_symbol, array_set_symbol, arithmetic_mode, cast_supported,
    compare_mode, int_conversion, negation_mode, print_symbol, string_conversion, CompareMode, NumericMode,
    StringConversion, IntConversion,
};

fn array_of(t: ValueType) -> ValueType {
    ValueType::Array(Box::new(t))
}

#[test]
fn arithmetic_promotes_to_float() {
    assert_eq!(arithmetic_mode(&ValueType::Int, &ValueType::Int), Some(NumericMode::Int));
    assert_eq!(arithmetic_mode(&ValueType::Int, &ValueType::Float), Some(NumericMode::Float));
    assert_eq!(arithmetic_mode(&ValueType::String, &ValueType::Int), None);
}

#[test]
fn comparisons_by_operand_types() {
    assert_eq!(compare_mode(&ValueType::Float, &ValueType::Int), Some(CompareMode::Numeric(NumericMode::Float)));
    assert_eq!(compare_mode(&ValueType::Bool, &ValueType::Bool), Some(CompareMode::Bool));
    assert_eq!(compare_mode(&ValueType::String, &ValueType::String), Some(CompareMode::Text));
    assert_eq!(compare_mode(&ValueType::String, &ValueType::Bool), None);
}

#[test]
fn arrays_of_one_type_compare_by_identity() {
    let ints = ValueType::Array(Box::new(ValueType::Int));
    let floats = ValueType::Array(Box::new(ValueType::Float));
    assert_eq!(compare_mode(&ints, &ints), Some(CompareMode::Reference));
    assert_eq!(compare_mode(&ints, &floats), None);
}

#[test]
fn negation_and_casts() {
    assert_eq!(negation_mode(&ValueType::Float), Some(NumericMode::Float));
    assert_eq!(negation_mode(&ValueType::Bool), None);
    assert!(cast_supported(&ValueType::Int, &ValueType::Float));
    assert!(!cast_supported(&ValueType::Float, &ValueType::Int));
    assert!(cast_supported(&array_of(ValueType::Int), &array_of(ValueType::Int)));
}

#[test]
fn interpolation_conversions() {
    assert_eq!(string_conversion(&ValueType::Int), Some(StringConversion::FromInt));
    assert_eq!(string_conversion(&array_of(ValueType::String)), Some(StringConversion::FromStringArray));
    assert_eq!(string_conversion(&array_of(ValueType::Int)), None);
}

#[test]
fn runtime_symbols_by_type() {
    assert_eq!(print_symbol(&ValueType::Bool), Some("bridge_print_bool"));
    assert_eq!(print_symbol(&array_of(ValueType::Int)), None);
    assert_eq!(array_new_symbol(&ValueType::Float), "cb_array_new_f64");
    assert_eq!(array_get_symbol(&ValueType::String).0, "cb_array_get_str");
    assert_eq!(array_get_symbol(&array_of(ValueType::Int)), ("cb_array_get_ptr", array_of(ValueType::Int)));
    assert_eq!(array_set_symbol(&ValueType::Bool), "cb_array_set_bool");
}

#[test]
fn int_conversion_by_type() {
    assert_eq!(int_conversion(&ValueType::String), Some(IntConversion::FromString));
    assert_eq!(int_conversion(&ValueType::Bool), Some(IntConversion::FromBool));
    assert_eq!(int_conversion(&array_of(ValueType::Int)), None);
}
