use vstd::prelude::*;

use crate::span::Span;

verus! {

/// The types of values in the language.
#[derive(Debug, PartialEq, Eq)]
pub enum ValueType {
    Int,
    Float,
    String,
    Bool,
    Array(Box<ValueType>),
    Void,
}

/// The name under which a type is shown in messages.
pub open spec fn shown_type_name(t: ValueType) -> Seq<char> {
    match t {
        ValueType::Int => "int"@,
        ValueType::Float => "float"@,
        ValueType::String => "string"@,
        ValueType::Bool => "bool"@,
        ValueType::Array(_) => "array"@,
        ValueType::Void => "void"@,
    }
}

/// The type that a type name denotes, for the names a module descriptor may use.
pub open spec fn type_of_name(name: Seq<char>) -> Option<ValueType> {
    if name == "int"@ {
        Some(ValueType::Int)
    } else if name == "float"@ {
        Some(ValueType::Float)
    } else if name == "string"@ {
        Some(ValueType::String)
    } else if name == "bool"@ {
        Some(ValueType::Bool)
    } else if name == "void"@ {
        Some(ValueType::Void)
    } else {
        None
    }
}

/// Type names read back: the name under which a type other than an array is
/// shown denotes that type.
pub proof fn lemma_type_names_round_trip(t: ValueType)
    requires
        !(t is Array),
    ensures
        type_of_name(shown_type_name(t)) == Some(t),
{
    reveal_strlit("int");
    reveal_strlit("float");
    reveal_strlit("string");
    reveal_strlit("bool");
    reveal_strlit("void");
    assert("int"@.len() == 3 && "float"@.len() == 5 && "string"@.len() == 6);
    assert("bool"@.len() == 4 && "void"@.len() == 4);
    assert("bool"@[0] != "void"@[0]);
    match t {
        ValueType::Int => {},
        ValueType::Float => {},
        ValueType::String => {},
        ValueType::Bool => {},
        _ => {},
    }
}

impl ValueType {
    pub fn as_str(&self) -> (s: &'static str)
        ensures
            s@ == shown_type_name(*self),
    {
        match self {
            ValueType::Int => "int",
            ValueType::Float => "float",
            ValueType::String => "string",
            ValueType::Bool => "bool",
            ValueType::Array(_) => "array",
            ValueType::Void => "void",
        }
    }

    pub fn from_name(name: &str) -> (t: Option<ValueType>)
        ensures
            t == type_of_name(name@),
    {
        if crate::text::str_eq(name, "int") {
            Some(ValueType::Int)
        } else if crate::text::str_eq(name, "float") {
            Some(ValueType::Float)
        } else if crate::text::str_eq(name, "string") {
            Some(ValueType::String)
        } else if crate::text::str_eq(name, "bool") {
            Some(ValueType::Bool)
        } else if crate::text::str_eq(name, "void") {
            Some(ValueType::Void)
        } else {
            None
        }
    }

    /// A copy of this type.
    pub fn duplicate(&self) -> (r: ValueType)
        ensures
            r == *self,
        decreases self,
    {
        match self {
            ValueType::Int => ValueType::Int,
            ValueType::Float => ValueType::Float,
            ValueType::String => ValueType::String,
            ValueType::Bool => ValueType::Bool,
            ValueType::Array(inner) => ValueType::Array(Box::new(inner.duplicate())),
            ValueType::Void => ValueType::Void,
        }
    }

    /// Whether two types are the same.
    pub fn same(&self, other: &ValueType) -> (b: bool)
        ensures
            b == (*self == *other),
        decreases self,
    {
        match (self, other) {
            (ValueType::Int, ValueType::Int) => true,
            (ValueType::Float, ValueType::Float) => true,
            (ValueType::String, ValueType::String) => true,
            (ValueType::Bool, ValueType::Bool) => true,
            (ValueType::Void, ValueType::Void) => true,
            (ValueType::Array(a), ValueType::Array(b)) => a.same(b),
            _ => false,
        }
    }
}

#[derive(Debug)]
pub struct Program {
    pub imports: Vec<ImportDecl>,
    pub body: BodyDecl,
}

#[derive(Debug)]
pub struct ImportDecl {
    pub module: String,
    pub span: Span,
}

#[derive(Debug)]
pub struct BodyDecl {
    pub name: String,
    pub items: Vec<Item>,
    pub span: Span,
}

#[derive(Debug)]
pub enum Item {
    Capability(CapabilityDecl),
    Right(RightDecl),
    Var(VarDecl),
    Func(FuncDecl),
}

#[derive(Debug)]
pub struct CapabilityDecl {
    pub name: String,
    pub initializer: Expr,
    pub span: Span,
}

#[derive(Debug)]
pub struct RightDecl {
    pub name: String,
    pub initializer: Expr,
    pub span: Span,
}

#[derive(Debug)]
pub struct VarDecl {
    pub name: String,
    pub explicit_type: Option<ValueType>,
    pub initializer: Expr,
    pub entitlement: Option<String>,
    pub span: Span,
}

#[derive(Debug)]
pub struct FuncDecl {
    pub name: String,
    pub params: Vec<FuncParam>,
    pub return_type: ValueType,
    pub right: Option<String>,
    pub body: Vec<Stmt>,
    pub span: Span,
}

#[derive(Debug)]
pub struct FuncParam {
    pub name: String,
    pub ty: ValueType,
    pub span: Span,
}

#[derive(Debug)]
pub enum Stmt {
    VarDecl(VarDecl),
    Assign { target: AssignTarget, value: Expr, span: Span },
    If { condition: Expr, then_branch: Vec<Stmt>, else_branch: Vec<Stmt>, span: Span },
    While { condition: Expr, body: Vec<Stmt>, span: Span },
    DoWhile { body: Vec<Stmt>, condition: Expr, span: Span },
    Expr { expr: Expr, span: Span },
    Block { statements: Vec<Stmt>, span: Span },
    Return { value: Option<Expr>, span: Span },
}

#[derive(Debug)]
pub enum AssignTarget {
    Identifier(String),
    Index { array: Expr, index: Expr },
}

#[derive(Debug)]
pub enum Expr {
    IntLiteral(i64, Span),
    /// A float literal, kept as its source text.
    FloatLiteral(String, Span),
    StringLiteral(String, Span),
    BoolLiteral(bool, Span),
    Identifier(String, Span),
    ArrayLiteral(Vec<Expr>, Span),
    Index { array: Box<Expr>, index: Box<Expr>, span: Span },
    NewObject { kind: String, args: Vec<Expr>, span: Span },
    Call { callee: CallTarget, args: Vec<Expr>, span: Span },
    Unary { op: UnaryOp, expr: Box<Expr>, span: Span },
    Binary { left: Box<Expr>, op: BinaryOp, right: Box<Expr>, span: Span },
    Ternary { condition: Box<Expr>, then_expr: Box<Expr>, else_expr: Box<Expr>, span: Span },
}

/// The source position an expression is reported at.
pub open spec fn expr_span(e: Expr) -> Span {
    match e {
        Expr::IntLiteral(_, span) => span,
        Expr::FloatLiteral(_, span) => span,
        Expr::StringLiteral(_, span) => span,
        Expr::BoolLiteral(_, span) => span,
        Expr::Identifier(_, span) => span,
        Expr::ArrayLiteral(_, span) => span,
        Expr::Index { span, .. } => span,
        Expr::NewObject { span, .. } => span,
        Expr::Call { span, .. } => span,
        Expr::Unary { span, .. } => span,
        Expr::Binary { span, .. } => span,
        Expr::Ternary { span, .. } => span,
    }
}

impl Expr {
    pub fn span(&self) -> (s: Span)
        ensures
            s == expr_span(*self),
    {
        match self {
            Expr::IntLiteral(_, span) => *span,
            Expr::FloatLiteral(_, span) => *span,
            Expr::StringLiteral(_, span) => *span,
            Expr::BoolLiteral(_, span) => *span,
            Expr::Identifier(_, span) => *span,
            Expr::ArrayLiteral(_, span) => *span,
            Expr::NewObject { span, .. } => *span,
            Expr::Index { span, .. } => *span,
            Expr::Call { span, .. } => *span,
            Expr::Unary { span, .. } => *span,
            Expr::Binary { span, .. } => *span,
            Expr::Ternary { span, .. } => *span,
        }
    }
}

/// Every string literal in `e` is shorter than `n` characters.
pub open spec fn expr_strings_below(e: Expr, n: nat) -> bool
    decreases e,
{
    match e {
        Expr::StringLiteral(s, _) => s@.len() < n,
        Expr::ArrayLiteral(items, _) => forall|i: int|
            0 <= i < items@.len() ==> expr_strings_below(#[trigger] items@[i], n),
        Expr::Index { array, index, .. } => expr_strings_below(*array, n) && expr_strings_below(
            *index,
            n,
        ),
        Expr::NewObject { args, .. } => forall|i: int|
            0 <= i < args@.len() ==> expr_strings_below(#[trigger] args@[i], n),
        Expr::Call { args, .. } => forall|i: int|
            0 <= i < args@.len() ==> expr_strings_below(#[trigger] args@[i], n),
        Expr::Unary { expr, .. } => expr_strings_below(*expr, n),
        Expr::Binary { left, right, .. } => expr_strings_below(*left, n) && expr_strings_below(
            *right,
            n,
        ),
        Expr::Ternary { condition, then_expr, else_expr, .. } => expr_strings_below(
            *condition,
            n,
        ) && expr_strings_below(*then_expr, n) && expr_strings_below(*else_expr, n),
        _ => true,
    }
}

#[derive(Debug)]
pub enum CallTarget {
    Name(String),
    Qualified { module: String, name: String },
}

#[derive(Clone, Copy, Debug, PartialEq, Eq, Structural)]
pub enum UnaryOp {
    Neg,
    Not,
}

#[derive(Clone, Copy, Debug, PartialEq, Eq, Structural)]
pub enum BinaryOp {
    Add,
    Sub,
    Mul,
    Div,
    Mod,
    Eq,
    NotEq,
    Greater,
    GreaterEq,
    Less,
    LessEq,
    And,
    Or,
}

/// A bound on string literal lengths holds for every larger bound too.
pub proof fn lemma_strings_below_mono(e: Expr, n: nat, m: nat)
    requires
        expr_strings_below(e, n),
        n <= m,
    ensures
        expr_strings_below(e, m),
    decreases e,
{
    match e {
        Expr::ArrayLiteral(items, _) => {
            assert forall|i: int| 0 <= i < items@.len() implies expr_strings_below(
                #[trigger] items@[i],
                m,
            ) by {
                lemma_strings_below_mono(items@[i], n, m);
            }
        },
        Expr::Index { array, index, .. } => {
            lemma_strings_below_mono(*array, n, m);
            lemma_strings_below_mono(*index, n, m);
        },
        Expr::NewObject { args, .. } => {
            assert forall|i: int| 0 <= i < args@.len() implies expr_strings_below(
                #[trigger] args@[i],
                m,
            ) by {
                lemma_strings_below_mono(args@[i], n, m);
            }
        },
        Expr::Call { args, .. } => {
            assert forall|i: int| 0 <= i < args@.len() implies expr_strings_below(
                #[trigger] args@[i],
                m,
            ) by {
                lemma_strings_below_mono(args@[i], n, m);
            }
        },
        Expr::Unary { expr, .. } => {
            lemma_strings_below_mono(*expr, n, m);
        },
        Expr::Binary { left, right, .. } => {
            lemma_strings_below_mono(*left, n, m);
            lemma_strings_below_mono(*right, n, m);
        },
        Expr::Ternary { condition, then_expr, else_expr, .. } => {
            lemma_strings_below_mono(*condition, n, m);
            lemma_strings_below_mono(*then_expr, n, m);
            lemma_strings_below_mono(*else_expr, n, m);
        },
        _ => {},
    }
}

/// A length that every string literal in `e` is shorter than.
pub open spec fn expr_string_bound(e: Expr) -> nat {
    choose|n: nat| expr_strings_below(e, n)
}

/// Every expression has a bound on the length of its string literals.
pub proof fn lemma_string_bound(e: Expr)
    ensures
        expr_strings_below(e, expr_string_bound(e)),
{
    let n = lemma_strings_bounded(e);
    assert(expr_strings_below(e, n));
}

proof fn lemma_strings_bounded(e: Expr) -> (n: nat)
    ensures
        expr_strings_below(e, n),
    decreases e,
{
    match e {
        Expr::StringLiteral(s, _) => s@.len() + 1,
        Expr::ArrayLiteral(items, _) => {
            assert(decreases_to!(e => items));
            lemma_strings_bounded_all(items@)
        },
        Expr::Index { array, index, .. } => {
            let a = lemma_strings_bounded(*array);
            let b = lemma_strings_bounded(*index);
            lemma_strings_below_mono(*array, a, a + b);
            lemma_strings_below_mono(*index, b, a + b);
            a + b
        },
        Expr::NewObject { args, .. } => {
            assert(decreases_to!(e => args));
            lemma_strings_bounded_all(args@)
        },
        Expr::Call { args, .. } => {
            assert(decreases_to!(e => args));
            lemma_strings_bounded_all(args@)
        },
        Expr::Unary { expr, .. } => lemma_strings_bounded(*expr),
        Expr::Binary { left, right, .. } => {
            let a = lemma_strings_bounded(*left);
            let b = lemma_strings_bounded(*right);
            lemma_strings_below_mono(*left, a, a + b);
            lemma_strings_below_mono(*right, b, a + b);
            a + b
        },
        Expr::Ternary { condition, then_expr, else_expr, .. } => {
            let a = lemma_strings_bounded(*condition);
            let b = lemma_strings_bounded(*then_expr);
            let c = lemma_strings_bounded(*else_expr);
            lemma_strings_below_mono(*condition, a, a + b + c);
            lemma_strings_below_mono(*then_expr, b, a + b + c);
            lemma_strings_below_mono(*else_expr, c, a + b + c);
            a + b + c
        },
        _ => 0,
    }
}

proof fn lemma_strings_bounded_all(items: Seq<Expr>) -> (n: nat)
    ensures
        forall|i: int| 0 <= i < items.len() ==> expr_strings_below(#[trigger] items[i], n),
    decreases items,
{
    if items.len() == 0 {
        0
    } else {
        let last = items[items.len() - 1];
        let rest = items.subrange(0, items.len() - 1);
        let a = lemma_strings_bounded(last);
        let b = lemma_strings_bounded_all(rest);
        lemma_strings_below_mono(last, a, a + b);
        assert forall|i: int| 0 <= i < items.len() implies expr_strings_below(
            #[trigger] items[i],
            a + b,
        ) by {
            if i < items.len() - 1 {
                assert(items[i] == rest[i]);
                lemma_strings_below_mono(rest[i], b, a + b);
            }
        }
        a + b
    }
}

} // verus!
