use vstd::prelude::*;

use crate::ast::{
    expr_span, AssignTarget, BinaryOp, BodyDecl, CallTarget, Expr, FuncDecl, FuncParam, Item, Stmt,
    UnaryOp, ValueType, VarDecl,
};
use crate::token::{Kind, TokenView};

verus! {

// Precedence levels of the expression grammar, loosest first:
//   0  conditional `c ? a : b` (right-associative)
//   1  `||`    2  `&&`    3  `==` `!=`    4  `>` `>=` `<` `<=`
//   5  `+` `-`    6  `*` `/` `%`            (all left-associative)
//   7  prefix `!` and `-`
//   8  indexing `a[i]`
//   9  primaries: literals, names, calls, `new`, array literals, `( e )`

/// The binary operator a token stands for, with its precedence level.
pub open spec fn binary_operator(k: Kind) -> Option<(nat, BinaryOp)> {
    match k {
        Kind::OrOr => Some((1nat, BinaryOp::Or)),
        Kind::AndAnd => Some((2nat, BinaryOp::And)),
        Kind::EqEq => Some((3nat, BinaryOp::Eq)),
        Kind::NotEq => Some((3nat, BinaryOp::NotEq)),
        Kind::Greater => Some((4nat, BinaryOp::Greater)),
        Kind::GreaterEq => Some((4nat, BinaryOp::GreaterEq)),
        Kind::Less => Some((4nat, BinaryOp::Less)),
        Kind::LessEq => Some((4nat, BinaryOp::LessEq)),
        Kind::Plus => Some((5nat, BinaryOp::Add)),
        Kind::Minus => Some((5nat, BinaryOp::Sub)),
        Kind::Star => Some((6nat, BinaryOp::Mul)),
        Kind::Slash => Some((6nat, BinaryOp::Div)),
        Kind::Percent => Some((6nat, BinaryOp::Mod)),
        _ => None,
    }
}

/// Whether an expression read at `level` would go on at a token of kind `k`:
/// a binary operator of that level or a tighter one, `[` up to the indexing
/// level, `?` at the conditional level.
pub open spec fn continues(level: nat, k: Kind) -> bool {
    ||| (binary_operator(k) matches Some((l, _)) && level <= l)
    ||| (k == Kind::LBracket && level <= 8)
    ||| (k == Kind::Question && level == 0)
}

/// The positions at which a reading of tokens splits them, which the syntax
/// tree does not record: where an operand, an operator, `[`, a comma, a
/// statement or a clause ends, with the reading of each part.
pub enum Shape {
    Leaf,
    Split(int, Box<Shape>, Box<Shape>),
    Cond(int, int, Box<Shape>, Box<Shape>, Box<Shape>),
}

/// The tokens from `i` up to `j` (not included) read as the expression `e` at
/// precedence `level`.
pub open spec fn derives(ts: Seq<TokenView>, level: nat, i: int, e: Expr, j: int) -> bool {
    exists|sh: Shape| #[trigger] derivation(ts, level, i, e, j, sh)
}

/// The tokens from `i` up to `k` are the non-empty `items`, separated by commas.
pub open spec fn seps(ts: Seq<TokenView>, i: int, items: Seq<Expr>, k: int) -> bool {
    exists|sh: Shape| #[trigger] separated(ts, i, items, k, sh)
}

/// The tokens from `i` up to `j` are the expressions `items` separated by commas
/// and followed by `close`, the token just before `j`.
pub open spec fn lists(ts: Seq<TokenView>, i: int, items: Seq<Expr>, j: int, close: Kind) -> bool {
    exists|sh: Shape| #[trigger] list(ts, i, items, j, close, sh)
}

/// The tokens from `i` up to `j` read as `e` at precedence `level`, split as
/// `sh` says. Each node carries the span the grammar gives it: a literal, name,
/// call, `new` or array literal that of its first token, an operator node or
/// indexing that of its leftmost operand (a prefix operator that of its
/// operand); parentheses leave no node.
pub open spec fn derivation(ts: Seq<TokenView>, level: nat, i: int, e: Expr, j: int, sh: Shape) -> bool
    decreases j - i, 10 - level,
{
    if 0 <= i < j <= ts.len() && level <= 9 {
        if level == 0 {
            ||| derivation(ts, 1, i, e, j, sh)
            ||| match (e, sh) {
                (
                    Expr::Ternary { condition, then_expr, else_expr, span },
                    Shape::Cond(k, m, sc, st, sf),
                ) => span == expr_span(*condition) && i < k && k + 1 < m && m + 1 < j
                    && derivation(ts, 1, i, *condition, k as int, *sc) && ts[k as int].kind
                    == Kind::Question && derivation(ts, 0, k + 1, *then_expr, m as int, *st)
                    && ts[m as int].kind == Kind::Colon && derivation(ts, 0, m + 1, *else_expr, j, *sf),
                _ => false,
            }
        } else if level <= 6 {
            ||| derivation(ts, level + 1, i, e, j, sh)
            ||| match (e, sh) {
                (Expr::Binary { left, op, right, span }, Shape::Split(k, sl, sr)) => span
                    == expr_span(*left) && i < k && k + 1 < j && derivation(ts, level, i, *left, k as int, *sl)
                    && binary_operator(ts[k as int].kind) == Some((level, op)) && derivation(
                    ts,
                    level + 1,
                    k + 1,
                    *right,
                    j,
                    *sr,
                ),
                _ => false,
            }
        } else if level == 7 {
            ||| derivation(ts, 8, i, e, j, sh)
            ||| e matches Expr::Unary { op, expr, span } && span == expr_span(*expr) && (if op
                == UnaryOp::Not {
                ts[i].kind == Kind::Bang
            } else {
                ts[i].kind == Kind::Minus
            }) && i + 1 < j && derivation(ts, 7, i + 1, *expr, j, sh)
        } else if level == 8 {
            ||| derivation(ts, 9, i, e, j, sh)
            ||| match (e, sh) {
                (Expr::Index { array, index, span }, Shape::Split(k, sa, si)) => span == expr_span(
                    *array,
                ) && i < k && k + 2 < j && derivation(ts, 8, i, *array, k as int, *sa)
                    && ts[k as int].kind == Kind::LBracket && ts[j - 1].kind == Kind::RBracket
                    && derivation(ts, 0, k + 1, *index, j - 1, *si),
                _ => false,
            }
        } else {
            ||| primary(ts, i, e, j, sh)
            ||| ts[i].kind == Kind::LParen && ts[j - 1].kind == Kind::RParen && i + 2 < j
                && derivation(ts, 0, i + 1, e, j - 1, sh)
        }
    } else {
        false
    }
}

/// The primaries other than a parenthesized expression.
pub open spec fn primary(ts: Seq<TokenView>, i: int, e: Expr, j: int, sh: Shape) -> bool
    decreases j - i, 0int,
{
    if 0 <= i < j <= ts.len() {
        let t = ts[i];
        match e {
            Expr::IntLiteral(v, span) => t.kind == Kind::IntLiteral(v) && span == t.span && j
                == i + 1,
            Expr::FloatLiteral(s, span) => t.kind == Kind::FloatLiteral(s@) && span == t.span
                && j == i + 1,
            Expr::StringLiteral(s, span) => t.kind == Kind::StringLiteral(s@) && span == t.span
                && j == i + 1,
            Expr::BoolLiteral(b, span) => t.kind == (if b {
                Kind::True
            } else {
                Kind::False
            }) && span == t.span && j == i + 1,
            Expr::Identifier(name, span) => t.kind == Kind::Identifier(name@) && span == t.span
                && j == i + 1 && j < ts.len() && ts[j].kind != Kind::Dot && ts[j].kind
                != Kind::LParen,
            Expr::Call { callee, args, span } => span == t.span && match callee {
                CallTarget::Name(name) => t.kind == Kind::Identifier(name@) && i + 2 < j
                    && ts[i + 1].kind == Kind::LParen && list(ts, i + 2, args@, j, Kind::RParen, sh),
                CallTarget::Qualified { module, name } => t.kind == Kind::Identifier(module@) && i
                    + 4 < j && ts[i + 1].kind == Kind::Dot && ts[i + 2].kind == Kind::Identifier(
                    name@,
                ) && ts[i + 3].kind == Kind::LParen && list(ts, i + 4, args@, j, Kind::RParen, sh),
            },
            Expr::NewObject { kind, args, span } => t.kind == Kind::New && span == t.span && i + 3
                < j && ts[i + 1].kind == Kind::Identifier(kind@) && ts[i + 2].kind == Kind::LParen
                && list(ts, i + 3, args@, j, Kind::RParen, sh),
            Expr::ArrayLiteral(items, span) => t.kind == Kind::LBracket && span == t.span && i + 1
                < j && list(ts, i + 1, items@, j, Kind::RBracket, sh),
            _ => false,
        }
    } else {
        false
    }
}

/// The tokens from `i` up to `j` are `items` separated by commas and followed by
/// `close`, the token just before `j`, split as `sh` says.
pub open spec fn list(ts: Seq<TokenView>, i: int, items: Seq<Expr>, j: int, close: Kind, sh: Shape) -> bool
    decreases j - i, 12int,
{
    if 0 <= i < j <= ts.len() {
        if items.len() == 0 {
            ts[i].kind == close && j == i + 1
        } else {
            ts[j - 1].kind == close && separated(ts, i, items, j - 1, sh)
        }
    } else {
        false
    }
}

/// The tokens from `i` up to `k` are the non-empty `items`, separated by commas.
pub open spec fn separated(ts: Seq<TokenView>, i: int, items: Seq<Expr>, k: int, sh: Shape) -> bool
    decreases k - i, 11int,
{
    if 0 <= i < k <= ts.len() && items.len() > 0 {
        if items.len() == 1 {
            derivation(ts, 0, i, items[0], k, sh)
        } else {
            sh matches Shape::Split(m, sp, sl) && i < m && m + 1 < k && separated(
                ts,
                i,
                items.drop_last(),
                m as int,
                *sp,
            ) && ts[m as int].kind == Kind::Comma && derivation(ts, 0, m + 1, items.last(), k, *sl)
        }
    } else {
        false
    }
}

// Statements, declarations and programs. A statement or declaration that
// ends with an optional `;` takes it when it follows.

/// Where a statement that may end with `;` ends, when its last part ends at `k`.
pub open spec fn ends(ts: Seq<TokenView>, k: int) -> int {
    if ts[k].kind == Kind::Semicolon {
        k + 1
    } else {
        k
    }
}

/// The type that a type keyword names.
pub open spec fn type_keyword(k: Kind) -> Option<ValueType> {
    match k {
        Kind::IntType => Some(ValueType::Int),
        Kind::FloatType => Some(ValueType::Float),
        Kind::StringType => Some(ValueType::String),
        Kind::BoolType => Some(ValueType::Bool),
        _ => None,
    }
}

/// Number of tokens a type is written with: its keyword and `[` `]` per array level.
pub open spec fn type_width(t: ValueType) -> nat
    decreases t,
{
    match t {
        ValueType::Array(inner) => type_width(*inner) + 2,
        _ => 1,
    }
}

/// The tokens from `i` on spell the type `t`.
pub open spec fn spells_type(ts: Seq<TokenView>, i: int, t: ValueType) -> bool
    decreases t,
{
    match t {
        ValueType::Array(inner) => spells_type(ts, i, *inner) && {
            let k = i + type_width(*inner);
            k + 1 < ts.len() && ts[k].kind == Kind::LBracket && ts[k + 1].kind == Kind::RBracket
        },
        ValueType::Void => false,
        _ => 0 <= i < ts.len() && type_keyword(ts[i].kind) == Some(t),
    }
}

/// An optional type annotation at `i`: absent when no type keyword stands there.
pub open spec fn annotation(ts: Seq<TokenView>, i: int, t: Option<ValueType>) -> bool {
    match t {
        Some(t) => spells_type(ts, i, t),
        None => 0 <= i < ts.len() && type_keyword(ts[i].kind) is None,
    }
}

pub open spec fn annotation_width(t: Option<ValueType>) -> nat {
    match t {
        Some(t) => type_width(t),
        None => 0,
    }
}

/// `let` at `i`, with `: entitlement` after it when a colon follows.
pub open spec fn let_head(ts: Seq<TokenView>, i: int, entitlement: Option<String>) -> bool {
    &&& 0 <= i && i + 2 < ts.len()
    &&& ts[i].kind == Kind::Let
    &&& if ts[i + 1].kind == Kind::Colon {
        entitlement matches Some(e) && ts[i + 2].kind == Kind::Identifier(e@)
    } else {
        entitlement is None
    }
}

/// Where a declaration goes on after `let` at `i` and its entitlement.
pub open spec fn after_let_head(ts: Seq<TokenView>, i: int) -> int {
    if ts[i + 1].kind == Kind::Colon {
        i + 3
    } else {
        i + 1
    }
}

/// Tokens after `let` that make a declaration other than a variable.
pub open spec fn names_other_declaration(k: Kind) -> bool {
    ||| k == Kind::Func
    ||| k == Kind::Identifier("capability"@)
    ||| k == Kind::Identifier("right"@)
}

/// From `a`: the variable's type, its name, `=` and its initializer, which ends at
/// `k`, before a token that does not continue it.
pub open spec fn declares(ts: Seq<TokenView>, a: int, d: VarDecl, k: int, sh: Shape) -> bool {
    let n = a + annotation_width(d.explicit_type);
    &&& d.explicit_type is Some
    &&& annotation(ts, a, d.explicit_type)
    &&& 0 <= n && n + 2 < k < ts.len()
    &&& ts[n].kind == Kind::Identifier(d.name@)
    &&& ts[n + 1].kind == Kind::Assign
    &&& derivation(ts, 0, n + 2, d.initializer, k, sh)
    &&& !continues(0, ts[k].kind)
}

/// A variable declaration from its `let` at `i` up to the end of its initializer
/// at `k`, where `reserved` says which tokens may not follow the head.
pub open spec fn variable_declaration(ts: Seq<TokenView>, i: int, d: VarDecl, k: int, sh: Shape, any_entitled: bool) -> bool {
    let a = after_let_head(ts, i);
    &&& let_head(ts, i, d.entitlement)
    &&& d.span == ts[i].span
    &&& ts[a].kind != Kind::Func
    &&& (!any_entitled || d.entitlement is None) ==> !names_other_declaration(ts[a].kind)
    &&& declares(ts, a, d, k, sh)
}

/// The expression written for an assignment target, with the span of the statement.
pub open spec fn target_expr(target: AssignTarget, span: crate::span::Span) -> Expr {
    match target {
        AssignTarget::Identifier(name) => Expr::Identifier(name, span),
        AssignTarget::Index { array, index } => Expr::Index {
            array: Box::new(array),
            index: Box::new(index),
            span,
        },
    }
}

/// An assignment or an expression statement from `i` up to `k`, without what ends it.
pub open spec fn simple(ts: Seq<TokenView>, i: int, s: Stmt, k: int, sh: Shape) -> bool {
    match s {
        Stmt::Assign { target, value, span } => match sh {
            Shape::Split(m, sl, sv) => i < m && m + 1 < k && derivation(
                ts,
                0,
                i,
                target_expr(target, span),
                m,
                *sl,
            ) && ts[m].kind == Kind::Assign && derivation(ts, 0, m + 1, value, k, *sv) && k < ts.len()
                && !continues(0, ts[k].kind),
            _ => false,
        },
        Stmt::Expr { expr, span } => span == expr_span(expr) && derivation(ts, 0, i, expr, k, sh)
            && k < ts.len() && ts[k].kind != Kind::Assign && !continues(0, ts[k].kind),
        _ => false,
    }
}

/// The statement `s` from `i` up to `j`, split as `sh` says. A `for` loop reads
/// as what it stands for: its initializer, then a `while` loop whose condition
/// is `true` when none is written and whose body ends with the update.
pub open spec fn stmt_derivation(ts: Seq<TokenView>, i: int, s: Stmt, j: int, sh: Shape) -> bool
    decreases j - i, 2int,
{
    if 0 <= i < j <= ts.len() {
        let t = ts[i];
        match s {
            Stmt::VarDecl(d) => match sh {
                Shape::Split(k, sd, _) => variable_declaration(ts, i, d, k, *sd, false) && k
                    < ts.len() && j == ends(ts, k),
                _ => false,
            },
            Stmt::If { condition, then_branch, else_branch, span } => match sh {
                Shape::Cond(k, m, sc, st, se) => {
                    &&& t.kind == Kind::If && span == t.span
                    &&& ts[i + 1].kind == Kind::LParen
                    &&& i + 2 < k && k < m && m <= j && m < ts.len()
                    &&& derivation(ts, 0, i + 2, condition, k, *sc)
                    &&& ts[k].kind == Kind::RParen
                    &&& block(ts, k + 1, then_branch@, m, *st)
                    &&& if ts[m].kind == Kind::Else {
                        &&& m + 1 < j
                        &&& if ts[m + 1].kind == Kind::If {
                            &&& else_branch@.len() == 1
                            &&& else_branch@[0] is If
                            &&& stmt_derivation(ts, m + 1, else_branch@[0], j, *se)
                        } else {
                            block(ts, m + 1, else_branch@, j, *se)
                        }
                    } else {
                        else_branch@.len() == 0 && j == m
                    }
                },
                _ => false,
            },
            Stmt::While { condition, body, span } => {
                ||| (match sh {
                    Shape::Split(k, sc, sb) => {
                        &&& t.kind == Kind::While && span == t.span
                        &&& ts[i + 1].kind == Kind::LParen
                        &&& i + 2 < k < j
                        &&& derivation(ts, 0, i + 2, condition, k, *sc)
                        &&& ts[k].kind == Kind::RParen
                        &&& block(ts, k + 1, body@, j, *sb)
                    },
                    _ => false,
                })
                ||| for_derivation(ts, i, s, j, sh)
            },
            Stmt::DoWhile { body, condition, span } => match sh {
                Shape::Cond(k, m, sb, sc, _) => {
                    &&& t.kind == Kind::Do && span == t.span
                    &&& i + 1 < k && k + 2 < m && m + 1 < ts.len()
                    &&& j == ends(ts, m + 1)
                    &&& block(ts, i + 1, body@, k, *sb)
                    &&& ts[k].kind == Kind::While
                    &&& ts[k + 1].kind == Kind::LParen
                    &&& derivation(ts, 0, k + 2, condition, m, *sc)
                    &&& ts[m].kind == Kind::RParen
                },
                _ => false,
            },
            Stmt::Block { statements, span } => {
                ||| (t.kind == Kind::LBrace && span == t.span && block(ts, i, statements@, j, sh))
                ||| for_derivation(ts, i, s, j, sh)
            },
            Stmt::Return { value, span } => t.kind == Kind::Return && span == t.span && i + 1
                < ts.len() && match value {
                None => ts[i + 1].kind == Kind::Semicolon && j == i + 2,
                Some(v) => ts[i + 1].kind != Kind::Semicolon && match sh {
                    Shape::Split(k, sv, _) => i + 1 < k < ts.len() && derivation(ts, 0, i + 1, v, k, *sv)
                        && !continues(0, ts[k].kind) && j == ends(ts, k),
                    _ => false,
                },
            },
            _ => match sh {
                Shape::Split(k, s1, _) => simple(ts, i, s, k, *s1) && k < ts.len() && j == ends(ts, k),
                _ => false,
            },
        }
    } else {
        false
    }
}

/// `{`, the statements `stmts`, and `}` just before `j`.
pub open spec fn block(ts: Seq<TokenView>, i: int, stmts: Seq<Stmt>, j: int, sh: Shape) -> bool
    decreases j - i, 1int,
{
    &&& 0 <= i && i + 1 < j <= ts.len()
    &&& ts[i].kind == Kind::LBrace
    &&& ts[j - 1].kind == Kind::RBrace
    &&& stmt_sequence(ts, i + 1, stmts, j - 1, sh)
}

/// The statements `stmts` one after another from `a` up to `b`.
pub open spec fn stmt_sequence(ts: Seq<TokenView>, a: int, stmts: Seq<Stmt>, b: int, sh: Shape) -> bool
    decreases b - a, 3int,
{
    if stmts.len() == 0 {
        a == b
    } else {
        match sh {
            Shape::Split(k, sp, sl) => a <= k < b && stmt_sequence(ts, a, stmts.drop_last(), k, *sp)
                && stmt_derivation(ts, k, stmts.last(), b, *sl),
            _ => false,
        }
    }
}

/// The first clause of a `for` header from `p`, with its `;`, ending at `a`.
pub open spec fn for_init(ts: Seq<TokenView>, p: int, init: Option<Stmt>, a: int, sh: Shape) -> bool {
    0 <= p < ts.len() && match init {
        None => ts[p].kind == Kind::Semicolon && a == p + 1,
        Some(Stmt::VarDecl(d)) => match sh {
            Shape::Split(k, sd, _) => variable_declaration(ts, p, d, k, *sd, false) && k < ts.len()
                && ts[k].kind == Kind::Semicolon && a == k + 1,
            _ => false,
        },
        Some(st) => ts[p].kind != Kind::Semicolon && ts[p].kind != Kind::Let && match sh {
            Shape::Split(k, s1, _) => simple(ts, p, st, k, *s1) && k < ts.len() && ts[k].kind
                == Kind::Semicolon && a == k + 1,
            _ => false,
        },
    }
}

/// The condition clause of a `for` header from `a`, with its `;`, ending at `b`;
/// `true` when none is written.
pub open spec fn for_condition(ts: Seq<TokenView>, a: int, condition: Expr, b: int, span: crate::span::Span, sh: Shape) -> bool {
    0 <= a < ts.len() && if ts[a].kind == Kind::Semicolon {
        b == a + 1 && condition == Expr::BoolLiteral(true, span)
    } else {
        a < b - 1 && derivation(ts, 0, a, condition, b - 1, sh) && ts[b - 1].kind == Kind::Semicolon
    }
}

/// The `while` loop that a `for` loop from `i` stands for, after its first
/// clause ending at `a`: the condition clause ends at `b`, the update at the `)`
/// at `c`, and the block at `j`.
pub open spec fn for_loop(
    ts: Seq<TokenView>,
    i: int,
    a: int,
    b: int,
    c: int,
    j: int,
    w: Stmt,
    span: crate::span::Span,
    s_cond: Shape,
    s_update: Shape,
    s_body: Shape,
) -> bool
    decreases j - i, 0int,
{
    if 0 <= i < a <= b <= c < j <= ts.len() {
        match w {
            Stmt::While { condition, body, span: ws } => {
                &&& ws == span
                &&& for_condition(ts, a, condition, b, span, s_cond)
                &&& if ts[b].kind == Kind::RParen {
                    c == b && block(ts, c + 1, body@, j, s_body)
                } else {
                    &&& body@.len() > 0
                    &&& simple(ts, b, body@.last(), c, s_update)
                    &&& ts[c].kind == Kind::RParen
                    &&& block(ts, c + 1, body@.drop_last(), j, s_body)
                }
            },
            _ => false,
        }
    } else {
        false
    }
}

/// A `for` loop from `i` up to `j`.
pub open spec fn for_derivation(ts: Seq<TokenView>, i: int, s: Stmt, j: int, sh: Shape) -> bool
    decreases j - i, 1int,
{
    if 0 <= i && i + 2 < j <= ts.len() && ts[i].kind == Kind::For && ts[i + 1].kind == Kind::LParen {
        let span = ts[i].span;
        match sh {
            Shape::Cond(a, b, s_init, s_cond, rest) => match *rest {
                Shape::Split(c, s_update, s_body) => if ts[i + 2].kind == Kind::Semicolon {
                    for_init(ts, i + 2, None, a, *s_init) && for_loop(
                        ts,
                        i,
                        a,
                        b,
                        c,
                        j,
                        s,
                        span,
                        *s_cond,
                        *s_update,
                        *s_body,
                    )
                } else {
                    match s {
                        Stmt::Block { statements, span: bs } => {
                            &&& bs == span
                            &&& statements@.len() == 2
                            &&& for_init(ts, i + 2, Some(statements@[0]), a, *s_init)
                            &&& for_loop(ts, i, a, b, c, j, statements@[1], span, *s_cond, *s_update, *s_body)
                        },
                        _ => false,
                    }
                },
                _ => false,
            },
            _ => false,
        }
    } else {
        false
    }
}

/// The statement `s` from `i` up to `j`.
pub open spec fn stmt_derives(ts: Seq<TokenView>, i: int, s: Stmt, j: int) -> bool {
    exists|sh: Shape| #[trigger] stmt_derivation(ts, i, s, j, sh)
}

/// A block with the statements `stmts` from `i` up to `j`.
pub open spec fn block_derives(ts: Seq<TokenView>, i: int, stmts: Seq<Stmt>, j: int) -> bool {
    exists|sh: Shape| #[trigger] block(ts, i, stmts, j, sh)
}

/// The statements `stmts` one after another from `a` up to `b`.
pub open spec fn sequence_derives(ts: Seq<TokenView>, a: int, stmts: Seq<Stmt>, b: int) -> bool {
    exists|sh: Shape| #[trigger] stmt_sequence(ts, a, stmts, b, sh)
}

/// Number of tokens a parameter is written with: name, `:` and type.
pub open spec fn param_width(fp: FuncParam) -> nat {
    type_width(fp.ty) + 2
}

/// The parameter `fp` from `p`: its name, `:` and its type.
pub open spec fn param_at(ts: Seq<TokenView>, p: int, fp: FuncParam) -> bool {
    &&& 0 <= p && p + 1 < ts.len()
    &&& ts[p].kind == Kind::Identifier(fp.name@)
    &&& fp.span == ts[p].span
    &&& ts[p + 1].kind == Kind::Colon
    &&& spells_type(ts, p + 2, fp.ty)
}

/// The non-empty parameters `ps` from `p`, separated by commas, the last ending at `e`.
pub open spec fn param_sequence(ts: Seq<TokenView>, p: int, ps: Seq<FuncParam>, e: int) -> bool
    decreases ps.len(),
{
    if ps.len() == 0 {
        false
    } else if ps.len() == 1 {
        param_at(ts, p, ps[0]) && e == p + param_width(ps[0])
    } else {
        let m = e - param_width(ps.last()) - 1;
        &&& param_sequence(ts, p, ps.drop_last(), m)
        &&& 0 <= m < ts.len()
        &&& ts[m].kind == Kind::Comma
        &&& param_at(ts, m + 1, ps.last())
    }
}

/// A parameter list from `p`, after its `(`, up to `q`, just after its `)`.
pub open spec fn parameters(ts: Seq<TokenView>, p: int, ps: Seq<FuncParam>, q: int) -> bool {
    if ps.len() == 0 {
        0 <= p < ts.len() && ts[p].kind == Kind::RParen && q == p + 1
    } else {
        param_sequence(ts, p, ps, q - 1) && 0 <= q - 1 < ts.len() && ts[q - 1].kind == Kind::RParen
    }
}

/// A function from its `func` at `p` up to `j`: name, parameters, an optional
/// `->` and return type (none makes it `void`), and its block.
pub open spec fn function(ts: Seq<TokenView>, p: int, f: FuncDecl, j: int, sh: Shape) -> bool {
    exists|q: int| #![trigger parameters(ts, p + 3, f.params@, q)] {
        &&& 0 <= p && p + 2 < ts.len()
        &&& ts[p].kind == Kind::Func && f.span == ts[p].span
        &&& ts[p + 1].kind == Kind::Identifier(f.name@)
        &&& ts[p + 2].kind == Kind::LParen
        &&& parameters(ts, p + 3, f.params@, q)
        &&& q < ts.len()
        &&& if ts[q].kind == Kind::Arrow {
            spells_type(ts, q + 1, f.return_type) && block(ts, q + 1 + type_width(f.return_type), f.body@, j, sh)
        } else {
            f.return_type == ValueType::Void && block(ts, q, f.body@, j, sh)
        }
    }
}

/// The declaration `it` from `i` up to `j`.
pub open spec fn item_derivation(ts: Seq<TokenView>, i: int, it: Item, j: int, sh: Shape) -> bool {
    0 <= i && i + 2 < ts.len() && match it {
        Item::Capability(c) => match sh {
            Shape::Split(k, se, _) => {
                &&& ts[i].kind == Kind::Let && c.span == ts[i].span
                &&& ts[i + 1].kind == Kind::Identifier("capability"@)
                &&& ts[i + 2].kind == Kind::Identifier(c.name@)
                &&& i + 3 < ts.len() && ts[i + 3].kind == Kind::Assign
                &&& derivation(ts, 0, i + 4, c.initializer, k, *se)
                &&& k < ts.len() && !continues(0, ts[k].kind) && j == ends(ts, k)
            },
            _ => false,
        },
        Item::Right(r) => match sh {
            Shape::Split(k, se, _) => {
                &&& ts[i].kind == Kind::Let && r.span == ts[i].span
                &&& ts[i + 1].kind == Kind::Identifier("right"@)
                &&& ts[i + 2].kind == Kind::Identifier(r.name@)
                &&& i + 3 < ts.len() && ts[i + 3].kind == Kind::Assign
                &&& derivation(ts, 0, i + 4, r.initializer, k, *se)
                &&& k < ts.len() && !continues(0, ts[k].kind) && j == ends(ts, k)
            },
            _ => false,
        },
        Item::Var(d) => match sh {
            Shape::Split(k, sd, _) => variable_declaration(ts, i, d, k, *sd, true) && k < ts.len()
                && j == ends(ts, k),
            _ => false,
        },
        Item::Func(f) => if ts[i].kind == Kind::Func {
            f.right is None && function(ts, i, f, j, sh)
        } else {
            let_head(ts, i, f.right) && function(ts, after_let_head(ts, i), f, j, sh)
        },
    }
}

/// The declarations `items` one after another from `a` up to `b`.
pub open spec fn item_sequence(ts: Seq<TokenView>, a: int, items: Seq<Item>, b: int, sh: Shape) -> bool
    decreases items.len(),
{
    if items.len() == 0 {
        a == b
    } else {
        match sh {
            Shape::Split(k, sp, sl) => a <= k < b && item_sequence(ts, a, items.drop_last(), k, *sp)
                && item_derivation(ts, k, items.last(), b, *sl),
            _ => false,
        }
    }
}

/// The declarations `items` one after another from `a` up to `b`.
pub open spec fn items_derive(ts: Seq<TokenView>, a: int, items: Seq<Item>, b: int) -> bool {
    exists|sh: Shape| #[trigger] item_sequence(ts, a, items, b, sh)
}

/// The body declaration `b` from its `body` at `i` up to `j`, just after its `}`.
pub open spec fn body_derives(ts: Seq<TokenView>, i: int, b: BodyDecl, j: int) -> bool {
    &&& 0 <= i && i + 3 < j <= ts.len()
    &&& ts[i].kind == Kind::Body && b.span == ts[i].span
    &&& ts[i + 1].kind == Kind::Identifier(b.name@)
    &&& ts[i + 2].kind == Kind::LBrace
    &&& items_derive(ts, i + 3, b.items@, j - 1)
    &&& ts[j - 1].kind == Kind::RBrace
}

/// A reading at a precedence level is also one at the next looser level.
pub proof fn lemma_loosen(ts: Seq<TokenView>, level: nat, i: int, e: Expr, j: int)
    requires
        1 <= level <= 9,
        derives(ts, level, i, e, j),
    ensures
        derives(ts, (level - 1) as nat, i, e, j),
{
    let sh = choose|sh: Shape| #[trigger] derivation(ts, level, i, e, j, sh);
    assert(derivation(ts, (level - 1) as nat, i, e, j, sh));
}

/// An operand, an operator of a level and an operand of the next level read as
/// the operator applied to both.
pub proof fn lemma_binary(
    ts: Seq<TokenView>,
    level: nat,
    i: int,
    left: Expr,
    op: BinaryOp,
    right: Expr,
    k: int,
    j: int,
)
    requires
        1 <= level <= 6,
        derives(ts, level, i, left, k),
        0 <= k < ts.len(),
        binary_operator(ts[k].kind) == Some((level, op)),
        derives(ts, level + 1, k + 1, right, j),
    ensures
        derives(
            ts,
            level,
            i,
            Expr::Binary { left: Box::new(left), op, right: Box::new(right), span: expr_span(left) },
            j,
        ),
{
    let sl = choose|sh: Shape| #[trigger] derivation(ts, level, i, left, k, sh);
    let sr = choose|sh: Shape| #[trigger] derivation(ts, level + 1, k + 1, right, j, sh);
    let e = Expr::Binary { left: Box::new(left), op, right: Box::new(right), span: expr_span(left) };
    assert(derivation(ts, level, i, e, j, Shape::Split(k, Box::new(sl), Box::new(sr))));
}

/// A condition, `?`, an expression, `:` and an expression read as a conditional.
pub proof fn lemma_conditional(
    ts: Seq<TokenView>,
    i: int,
    c: Expr,
    k: int,
    t: Expr,
    m: int,
    f: Expr,
    j: int,
)
    requires
        derives(ts, 1, i, c, k),
        ts[k].kind == Kind::Question,
        derives(ts, 0, k + 1, t, m),
        ts[m].kind == Kind::Colon,
        derives(ts, 0, m + 1, f, j),
    ensures
        derives(
            ts,
            0,
            i,
            Expr::Ternary {
                condition: Box::new(c),
                then_expr: Box::new(t),
                else_expr: Box::new(f),
                span: expr_span(c),
            },
            j,
        ),
{
    let sc = choose|sh: Shape| #[trigger] derivation(ts, 1, i, c, k, sh);
    let st = choose|sh: Shape| #[trigger] derivation(ts, 0, k + 1, t, m, sh);
    let sf = choose|sh: Shape| #[trigger] derivation(ts, 0, m + 1, f, j, sh);
    let e = Expr::Ternary {
        condition: Box::new(c),
        then_expr: Box::new(t),
        else_expr: Box::new(f),
        span: expr_span(c),
    };
    let sh = Shape::Cond(k, m, Box::new(sc), Box::new(st), Box::new(sf));
    assert(derivation(ts, 0, i, e, j, sh));
}

/// `!` or `-` before an operand read as that prefix operator applied to it.
pub proof fn lemma_prefix(ts: Seq<TokenView>, i: int, op: UnaryOp, x: Expr, j: int)
    requires
        0 <= i,
        derives(ts, 7, i + 1, x, j),
        ts[i].kind == (if op == UnaryOp::Not {
            Kind::Bang
        } else {
            Kind::Minus
        }),
    ensures
        derives(ts, 7, i, Expr::Unary { op, expr: Box::new(x), span: expr_span(x) }, j),
{
    let sx = choose|sh: Shape| #[trigger] derivation(ts, 7, i + 1, x, j, sh);
    assert(derivation(ts, 7, i, Expr::Unary { op, expr: Box::new(x), span: expr_span(x) }, j, sx));
}

/// An operand followed by `[`, an expression and `]` read as indexing.
pub proof fn lemma_index(ts: Seq<TokenView>, i: int, a: Expr, k: int, x: Expr, m: int)
    requires
        derives(ts, 8, i, a, k),
        ts[k].kind == Kind::LBracket,
        derives(ts, 0, k + 1, x, m),
        m < ts.len(),
        ts[m].kind == Kind::RBracket,
    ensures
        derives(ts, 8, i, Expr::Index { array: Box::new(a), index: Box::new(x), span: expr_span(a) }, m + 1),
{
    let sa = choose|sh: Shape| #[trigger] derivation(ts, 8, i, a, k, sh);
    let sx = choose|sh: Shape| #[trigger] derivation(ts, 0, k + 1, x, m, sh);
    let e = Expr::Index { array: Box::new(a), index: Box::new(x), span: expr_span(a) };
    assert(derivation(ts, 8, i, e, m + 1, Shape::Split(k, Box::new(sa), Box::new(sx))));
}

/// An expression in parentheses reads as that expression.
pub proof fn lemma_parenthesized(ts: Seq<TokenView>, i: int, e: Expr, k: int)
    requires
        0 <= i,
        ts[i].kind == Kind::LParen,
        derives(ts, 0, i + 1, e, k),
        k < ts.len(),
        ts[k].kind == Kind::RParen,
    ensures
        derives(ts, 9, i, e, k + 1),
{
    let sh = choose|sh: Shape| #[trigger] derivation(ts, 0, i + 1, e, k, sh);
    assert(derivation(ts, 9, i, e, k + 1, sh));
}

/// A primary that splits nothing, or only a list, reads at the primary level.
pub proof fn lemma_primary(ts: Seq<TokenView>, i: int, e: Expr, j: int, sh: Shape)
    requires
        primary(ts, i, e, j, sh),
    ensures
        derives(ts, 9, i, e, j),
{
    assert(derivation(ts, 9, i, e, j, sh));
}

/// A single expression is a list of one item.
pub proof fn lemma_seps_one(ts: Seq<TokenView>, i: int, e: Expr, k: int)
    requires
        derives(ts, 0, i, e, k),
    ensures
        seps(ts, i, seq![e], k),
{
    let sh = choose|sh: Shape| #[trigger] derivation(ts, 0, i, e, k, sh);
    assert(seq![e][0] == e);
    assert(separated(ts, i, seq![e], k, sh));
}

/// Items, a comma and one more expression are the items with it appended.
pub proof fn lemma_seps_push(ts: Seq<TokenView>, i: int, items: Seq<Expr>, m: int, e: Expr, k: int)
    requires
        seps(ts, i, items, m),
        ts[m].kind == Kind::Comma,
        derives(ts, 0, m + 1, e, k),
    ensures
        seps(ts, i, items.push(e), k),
{
    let sp = choose|sh: Shape| #[trigger] separated(ts, i, items, m, sh);
    let sl = choose|sh: Shape| #[trigger] derivation(ts, 0, m + 1, e, k, sh);
    assert(items.push(e).drop_last() =~= items);
    assert(separated(ts, i, items.push(e), k, Shape::Split(m, Box::new(sp), Box::new(sl))));
}

/// Items followed by the closing token make a list.
pub proof fn lemma_lists_close(ts: Seq<TokenView>, i: int, items: Seq<Expr>, k: int, close: Kind)
    requires
        seps(ts, i, items, k),
        k < ts.len(),
        ts[k].kind == close,
    ensures
        lists(ts, i, items, k + 1, close),
{
    let sh = choose|sh: Shape| #[trigger] separated(ts, i, items, k, sh);
    assert(list(ts, i, items, k + 1, close, sh));
}

/// The closing token alone makes an empty list.
pub proof fn lemma_lists_empty(ts: Seq<TokenView>, i: int, close: Kind)
    requires
        0 <= i < ts.len(),
        ts[i].kind == close,
    ensures
        lists(ts, i, Seq::empty(), i + 1, close),
{
    assert(list(ts, i, Seq::empty(), i + 1, close, Shape::Leaf));
}

/// No statements read from `a` up to `a`.
pub proof fn lemma_sequence_empty(ts: Seq<TokenView>, a: int)
    ensures
        sequence_derives(ts, a, Seq::empty(), a),
{
    assert(stmt_sequence(ts, a, Seq::empty(), a, Shape::Leaf));
}

/// Statements followed by one more statement read as all of them.
pub proof fn lemma_sequence_push(ts: Seq<TokenView>, a: int, stmts: Seq<Stmt>, k: int, s: Stmt, b: int)
    requires
        sequence_derives(ts, a, stmts, k),
        stmt_derives(ts, k, s, b),
    ensures
        sequence_derives(ts, a, stmts.push(s), b),
{
    let sp = choose|sh: Shape| #[trigger] stmt_sequence(ts, a, stmts, k, sh);
    let sl = choose|sh: Shape| #[trigger] stmt_derivation(ts, k, s, b, sh);
    if stmts.len() > 0 {
        assert(sp matches Shape::Split(m, _, _) && a <= m < k);
    }
    assert(stmts.push(s).drop_last() =~= stmts);
    assert(stmt_sequence(ts, a, stmts.push(s), b, Shape::Split(k, Box::new(sp), Box::new(sl))));
}

/// `{`, statements and `}` read as a block.
pub proof fn lemma_block(ts: Seq<TokenView>, i: int, stmts: Seq<Stmt>, j: int)
    requires
        0 <= i && i + 1 < j <= ts.len(),
        ts[i].kind == Kind::LBrace,
        sequence_derives(ts, i + 1, stmts, j - 1),
        ts[j - 1].kind == Kind::RBrace,
    ensures
        block_derives(ts, i, stmts, j),
{
    let sh = choose|sh: Shape| #[trigger] stmt_sequence(ts, i + 1, stmts, j - 1, sh);
    assert(block(ts, i, stmts, j, sh));
}

/// No declarations read from `a` up to `a`.
pub proof fn lemma_items_empty(ts: Seq<TokenView>, a: int)
    ensures
        items_derive(ts, a, Seq::empty(), a),
{
    assert(item_sequence(ts, a, Seq::empty(), a, Shape::Leaf));
}

/// Declarations followed by one more declaration read as all of them.
pub proof fn lemma_items_push(ts: Seq<TokenView>, a: int, items: Seq<Item>, k: int, it: Item, b: int, sl: Shape)
    requires
        items_derive(ts, a, items, k),
        item_derivation(ts, k, it, b, sl),
        k < b,
    ensures
        items_derive(ts, a, items.push(it), b),
{
    let sp = choose|sh: Shape| #[trigger] item_sequence(ts, a, items, k, sh);
    if items.len() > 0 {
        assert(sp matches Shape::Split(m, _, _) && a <= m < k);
    }
    assert(items.push(it).drop_last() =~= items);
    assert(item_sequence(ts, a, items.push(it), b, Shape::Split(k, Box::new(sp), Box::new(sl))));
}

/// A parameter list grows by a comma and one more parameter.
pub proof fn lemma_params_push(ts: Seq<TokenView>, p: int, ps: Seq<FuncParam>, e: int, fp: FuncParam)
    requires
        param_sequence(ts, p, ps, e),
        0 <= e < ts.len(),
        ts[e].kind == Kind::Comma,
        param_at(ts, e + 1, fp),
    ensures
        param_sequence(ts, p, ps.push(fp), e + 1 + param_width(fp)),
{
    assert(ps.push(fp).drop_last() =~= ps);
    assert(ps.push(fp).last() == fp);
}

} // verus!
