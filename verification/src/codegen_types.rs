use vstd::prelude::*;

use crate::ast::ValueType;
use crate::sema::{unify, unify_types};

verus! {

/// The type of a ternary whose branches have the given types: the common type,
/// or float for two numeric types.
pub fn unify_ternary_type(left: &ValueType, right: &ValueType) -> (r: Option<ValueType>)
    ensures
        r == unify(*left, *right),
{
    unify_types(left, right)
}

/// The element type of an array literal whose elements so far have type `left`
/// and whose next element has type `right`.
pub fn unify_array_element_type(left: &ValueType, right: &ValueType) -> (r: Option<ValueType>)
    ensures
        r == unify(*left, *right),
{
    unify_types(left, right)
}

} // verus!

verus! {

/// How a numeric operation is carried out: on 64-bit integers, or on doubles.
#[derive(Clone, Copy, Debug, PartialEq, Eq, Structural)]
pub enum NumericMode {
    Int,
    Float,
}

/// How two values are compared.
#[derive(Clone, Copy, Debug, PartialEq, Eq, Structural)]
pub enum CompareMode {
    /// As numbers, in the given mode.
    Numeric(NumericMode),
    /// As booleans, for equality only.
    Bool,
    /// As strings, by the runtime's string equality, for equality only.
    Text,
    /// As arrays of one type, by identity: two operands are equal when they are
    /// the same array. For equality only.
    Reference,
}

/// How a value becomes a string in an interpolation.
#[derive(Clone, Copy, Debug, PartialEq, Eq, Structural)]
pub enum StringConversion {
    /// It is a string already.
    Identity,
    FromInt,
    FromFloat,
    FromBool,
    /// A string array, by the runtime's join.
    FromStringArray,
}

/// The mode of arithmetic on two operands: doubles when either is a float,
/// integers when both are ints, none when either is not numeric.
pub open spec fn arithmetic_mode_spec(left: ValueType, right: ValueType) -> Option<NumericMode> {
    if crate::sema::spec_is_numeric(left) && crate::sema::spec_is_numeric(right) {
        if left == ValueType::Float || right == ValueType::Float {
            Some(NumericMode::Float)
        } else {
            Some(NumericMode::Int)
        }
    } else {
        None
    }
}

pub fn arithmetic_mode(left: &ValueType, right: &ValueType) -> (r: Option<NumericMode>)
    ensures
        r == arithmetic_mode_spec(*left, *right),
{
    if crate::sema::is_numeric(left) && crate::sema::is_numeric(right) {
        if left.same(&ValueType::Float) || right.same(&ValueType::Float) {
            Some(NumericMode::Float)
        } else {
            Some(NumericMode::Int)
        }
    } else {
        None
    }
}

/// How two operands are compared: as numbers when both are numeric, as
/// booleans or strings when both are, as arrays when both are arrays of one
/// type, and not at all otherwise.
pub open spec fn compare_mode_spec(left: ValueType, right: ValueType) -> Option<CompareMode> {
    match arithmetic_mode_spec(left, right) {
        Some(m) => Some(CompareMode::Numeric(m)),
        None => if left == ValueType::Bool && right == ValueType::Bool {
            Some(CompareMode::Bool)
        } else if left == ValueType::String && right == ValueType::String {
            Some(CompareMode::Text)
        } else if left is Array && left == right {
            Some(CompareMode::Reference)
        } else {
            None
        },
    }
}

pub fn compare_mode(left: &ValueType, right: &ValueType) -> (r: Option<CompareMode>)
    ensures
        r == compare_mode_spec(*left, *right),
{
    match arithmetic_mode(left, right) {
        Some(m) => Some(CompareMode::Numeric(m)),
        None => {
            if left.same(&ValueType::Bool) && right.same(&ValueType::Bool) {
                Some(CompareMode::Bool)
            } else if left.same(&ValueType::String) && right.same(&ValueType::String) {
                Some(CompareMode::Text)
            } else if matches!(left, ValueType::Array(_)) && left.same(right) {
                Some(CompareMode::Reference)
            } else {
                None
            }
        },
    }
}

/// Every equality that semantic analysis types as `bool` between values (not
/// `void`) has a way to be compiled.
pub proof fn lemma_typed_equality_compiles(op: crate::ast::BinaryOp, left: ValueType, right: ValueType)
    requires
        op == crate::ast::BinaryOp::Eq || op == crate::ast::BinaryOp::NotEq,
        crate::sema::binary_type(op, left, right) == Some(ValueType::Bool),
        left != ValueType::Void,
    ensures
        compare_mode_spec(left, right) is Some,
{
}

/// The mode of numeric negation: ints and floats only.
pub fn negation_mode(ty: &ValueType) -> (r: Option<NumericMode>)
    ensures
        r == match *ty {
            ValueType::Int => Some(NumericMode::Int),
            ValueType::Float => Some(NumericMode::Float),
            _ => None,
        },
{
    match ty {
        ValueType::Int => Some(NumericMode::Int),
        ValueType::Float => Some(NumericMode::Float),
        _ => None,
    }
}

/// Whether a value of one type can be stored where another is expected: the
/// same type, or an int where a float is expected (converted).
pub fn cast_supported(from: &ValueType, to: &ValueType) -> (b: bool)
    ensures
        b == (*from == *to || (*from == ValueType::Int && *to == ValueType::Float)),
{
    from.same(to) || (from.same(&ValueType::Int) && to.same(&ValueType::Float))
}

/// How a value of a type becomes a string in an interpolation; none for types
/// that cannot be interpolated.
pub fn string_conversion(ty: &ValueType) -> (r: Option<StringConversion>)
    ensures
        r == match *ty {
            ValueType::String => Some(StringConversion::Identity),
            ValueType::Int => Some(StringConversion::FromInt),
            ValueType::Float => Some(StringConversion::FromFloat),
            ValueType::Bool => Some(StringConversion::FromBool),
            ValueType::Array(inner) => if *inner == ValueType::String {
                Some(StringConversion::FromStringArray)
            } else {
                None
            },
            ValueType::Void => None,
        },
        r is Some <==> crate::sema::interpolable(*ty),
{
    match ty {
        ValueType::String => Some(StringConversion::Identity),
        ValueType::Int => Some(StringConversion::FromInt),
        ValueType::Float => Some(StringConversion::FromFloat),
        ValueType::Bool => Some(StringConversion::FromBool),
        ValueType::Array(inner) => {
            if inner.same(&ValueType::String) {
                Some(StringConversion::FromStringArray)
            } else {
                None
            }
        },
        ValueType::Void => None,
    }
}

/// The runtime function that prints a value of a type, for the printable types.
pub fn print_symbol(ty: &ValueType) -> (r: Option<&'static str>)
    ensures
        match *ty {
            ValueType::Int => r matches Some(s) && s@ == "bridge_print_int"@,
            ValueType::Float => r matches Some(s) && s@ == "bridge_print_float"@,
            ValueType::String => r matches Some(s) && s@ == "bridge_print_string"@,
            ValueType::Bool => r matches Some(s) && s@ == "bridge_print_bool"@,
            _ => r is None,
        },
{
    match ty {
        ValueType::Int => Some("bridge_print_int"),
        ValueType::Float => Some("bridge_print_float"),
        ValueType::String => Some("bridge_print_string"),
        ValueType::Bool => Some("bridge_print_bool"),
        _ => None,
    }
}

/// The suffix of the runtime's array functions for an element type: one per
/// primitive type, and one for elements that are pointers.
pub open spec fn array_suffix(element: ValueType) -> Seq<char> {
    match element {
        ValueType::Int => "i64"@,
        ValueType::Float => "f64"@,
        ValueType::String => "str"@,
        ValueType::Bool => "bool"@,
        _ => "ptr"@,
    }
}

/// The runtime function that makes an array of the element type.
pub fn array_new_symbol(element: &ValueType) -> (r: &'static str)
    ensures
        r@ == "cb_array_new_"@ + array_suffix(*element),
{
    proof {
        reveal_strlit("cb_array_new_i64");
        reveal_strlit("cb_array_new_f64");
        reveal_strlit("cb_array_new_str");
        reveal_strlit("cb_array_new_bool");
        reveal_strlit("cb_array_new_ptr");
        reveal_strlit("cb_array_new_");
        reveal_strlit("i64");
        reveal_strlit("f64");
        reveal_strlit("str");
        reveal_strlit("bool");
        reveal_strlit("ptr");
    }
    let r = match element {
        ValueType::Int => "cb_array_new_i64",
        ValueType::Float => "cb_array_new_f64",
        ValueType::String => "cb_array_new_str",
        ValueType::Bool => "cb_array_new_bool",
        _ => "cb_array_new_ptr",
    };
    assert(r@ =~= "cb_array_new_"@ + array_suffix(*element));
    r
}

/// The runtime function that reads an element of an array of the element type,
/// and the type the value it gives is taken as; an element that is a pointer is
/// taken as an int array.
pub fn array_get_symbol(element: &ValueType) -> (r: (&'static str, ValueType))
    ensures
        r.0@ == "cb_array_get_"@ + array_suffix(*element),
        r.1 == match *element {
            ValueType::Int | ValueType::Float | ValueType::String | ValueType::Bool => *element,
            _ => ValueType::Array(Box::new(ValueType::Int)),
        },
{
    proof {
        reveal_strlit("cb_array_get_i64");
        reveal_strlit("cb_array_get_f64");
        reveal_strlit("cb_array_get_str");
        reveal_strlit("cb_array_get_bool");
        reveal_strlit("cb_array_get_ptr");
        reveal_strlit("cb_array_get_");
        reveal_strlit("i64");
        reveal_strlit("f64");
        reveal_strlit("str");
        reveal_strlit("bool");
        reveal_strlit("ptr");
    }
    let r = match element {
        ValueType::Int => ("cb_array_get_i64", ValueType::Int),
        ValueType::Float => ("cb_array_get_f64", ValueType::Float),
        ValueType::String => ("cb_array_get_str", ValueType::String),
        ValueType::Bool => ("cb_array_get_bool", ValueType::Bool),
        _ => ("cb_array_get_ptr", ValueType::Array(Box::new(ValueType::Int))),
    };
    assert(r.0@ =~= "cb_array_get_"@ + array_suffix(*element));
    r
}

/// The runtime function that writes an element of an array of the element type.
pub fn array_set_symbol(element: &ValueType) -> (r: &'static str)
    ensures
        r@ == "cb_array_set_"@ + array_suffix(*element),
{
    proof {
        reveal_strlit("cb_array_set_i64");
        reveal_strlit("cb_array_set_f64");
        reveal_strlit("cb_array_set_str");
        reveal_strlit("cb_array_set_bool");
        reveal_strlit("cb_array_set_ptr");
        reveal_strlit("cb_array_set_");
        reveal_strlit("i64");
        reveal_strlit("f64");
        reveal_strlit("str");
        reveal_strlit("bool");
        reveal_strlit("ptr");
    }
    let r = match element {
        ValueType::Int => "cb_array_set_i64",
        ValueType::Float => "cb_array_set_f64",
        ValueType::String => "cb_array_set_str",
        ValueType::Bool => "cb_array_set_bool",
        _ => "cb_array_set_ptr",
    };
    assert(r@ =~= "cb_array_set_"@ + array_suffix(*element));
    r
}

/// How `Int(...)` converts a value of a type.
#[derive(Clone, Copy, Debug, PartialEq, Eq, Structural)]
pub enum IntConversion {
    /// It is an int already.
    Identity,
    /// A float, truncated toward zero.
    FromFloat,
    /// A bool, as 0 or 1.
    FromBool,
    /// A string, by the runtime's parser.
    FromString,
}

/// How `Int(...)` converts a value of a type; none for types it does not take.
pub fn int_conversion(ty: &ValueType) -> (r: Option<IntConversion>)
    ensures
        r == match *ty {
            ValueType::Int => Some(IntConversion::Identity),
            ValueType::Float => Some(IntConversion::FromFloat),
            ValueType::Bool => Some(IntConversion::FromBool),
            ValueType::String => Some(IntConversion::FromString),
            _ => None,
        },
{
    match ty {
        ValueType::Int => Some(IntConversion::Identity),
        ValueType::Float => Some(IntConversion::FromFloat),
        ValueType::Bool => Some(IntConversion::FromBool),
        ValueType::String => Some(IntConversion::FromString),
        _ => None,
    }
}

} // verus!
