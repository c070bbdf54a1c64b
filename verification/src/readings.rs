use vstd::prelude::*;

use crate::ast::{
    expr_span, AssignTarget, BinaryOp, BodyDecl, CallTarget, Expr, FuncDecl, FuncParam, Item, Stmt, UnaryOp,
    ValueType, VarDecl,
};
use crate::grammar::{
    binary_operator, block, continues, derivation, derives, ends, for_derivation, list, lists, primary,
    block_derives, for_condition, for_init, for_loop, item_derivation, item_sequence, items_derive,
    param_at, param_sequence, param_width, separated, seps, sequence_derives, simple,
    spells_type, stmt_derivation, stmt_derives, stmt_sequence, target_expr, type_keyword, type_width,
    Shape,
};
use crate::diagnostics::DiagnosticView;
use crate::token::{Kind, TokenView};

verus! {

// Syntax trees are compared by what they say: two trees are the same when they
// have the same shape, operators, spans and the same text in their names and
// literals.

/// Two call targets name the same function.
pub open spec fn same_callee(a: CallTarget, b: CallTarget) -> bool {
    match (a, b) {
        (CallTarget::Name(x), CallTarget::Name(y)) => x@ == y@,
        (
            CallTarget::Qualified { module: m1, name: n1 },
            CallTarget::Qualified { module: m2, name: n2 },
        ) => m1@ == m2@ && n1@ == n2@,
        _ => false,
    }
}

/// Two expressions say the same thing.
pub open spec fn same_expr(a: Expr, b: Expr) -> bool
    decreases a,
{
    match (a, b) {
        (Expr::IntLiteral(v, s), Expr::IntLiteral(w, t)) => v == w && s == t,
        (Expr::FloatLiteral(x, s), Expr::FloatLiteral(y, t)) => x@ == y@ && s == t,
        (Expr::StringLiteral(x, s), Expr::StringLiteral(y, t)) => x@ == y@ && s == t,
        (Expr::BoolLiteral(v, s), Expr::BoolLiteral(w, t)) => v == w && s == t,
        (Expr::Identifier(x, s), Expr::Identifier(y, t)) => x@ == y@ && s == t,
        (Expr::ArrayLiteral(xs, s), Expr::ArrayLiteral(ys, t)) => s == t && xs@.len() == ys@.len()
            && forall|i: int| 0 <= i < xs@.len() ==> same_expr(#[trigger] xs@[i], ys@[i]),
        (
            Expr::Index { array: a1, index: i1, span: s },
            Expr::Index { array: a2, index: i2, span: t },
        ) => s == t && same_expr(*a1, *a2) && same_expr(*i1, *i2),
        (
            Expr::NewObject { kind: k1, args: xs, span: s },
            Expr::NewObject { kind: k2, args: ys, span: t },
        ) => k1@ == k2@ && s == t && xs@.len() == ys@.len() && forall|i: int|
            0 <= i < xs@.len() ==> same_expr(#[trigger] xs@[i], ys@[i]),
        (
            Expr::Call { callee: c1, args: xs, span: s },
            Expr::Call { callee: c2, args: ys, span: t },
        ) => same_callee(c1, c2) && s == t && xs@.len() == ys@.len() && forall|i: int|
            0 <= i < xs@.len() ==> same_expr(#[trigger] xs@[i], ys@[i]),
        (Expr::Unary { op: o1, expr: x, span: s }, Expr::Unary { op: o2, expr: y, span: t }) => o1
            == o2 && s == t && same_expr(*x, *y),
        (
            Expr::Binary { left: l1, op: o1, right: r1, span: s },
            Expr::Binary { left: l2, op: o2, right: r2, span: t },
        ) => o1 == o2 && s == t && same_expr(*l1, *l2) && same_expr(*r1, *r2),
        (
            Expr::Ternary { condition: c1, then_expr: t1, else_expr: e1, span: s },
            Expr::Ternary { condition: c2, then_expr: t2, else_expr: e2, span: t },
        ) => s == t && same_expr(*c1, *c2) && same_expr(*t1, *t2) && same_expr(*e1, *e2),
        _ => false,
    }
}

/// Two lists of expressions say the same thing, item by item.
pub open spec fn same_exprs(a: Seq<Expr>, b: Seq<Expr>) -> bool {
    &&& a.len() == b.len()
    &&& forall|i: int| 0 <= i < a.len() ==> same_expr(#[trigger] a[i], b[i])
}

/// Every expression says the same thing as itself.
pub proof fn lemma_same_reflexive(a: Expr)
    ensures
        same_expr(a, a),
    decreases a,
{
    match a {
        Expr::ArrayLiteral(xs, _) => {
            assert forall|i: int| 0 <= i < xs@.len() implies same_expr(#[trigger] xs@[i], xs@[i]) by {
                lemma_same_reflexive(xs@[i]);
            }
        },
        Expr::Index { array, index, .. } => {
            lemma_same_reflexive(*array);
            lemma_same_reflexive(*index);
        },
        Expr::NewObject { args, .. } => {
            assert forall|i: int| 0 <= i < args@.len() implies same_expr(#[trigger] args@[i], args@[i]) by {
                lemma_same_reflexive(args@[i]);
            }
        },
        Expr::Call { args, .. } => {
            assert forall|i: int| 0 <= i < args@.len() implies same_expr(#[trigger] args@[i], args@[i]) by {
                lemma_same_reflexive(args@[i]);
            }
        },
        Expr::Unary { expr, .. } => {
            lemma_same_reflexive(*expr);
        },
        Expr::Binary { left, right, .. } => {
            lemma_same_reflexive(*left);
            lemma_same_reflexive(*right);
        },
        Expr::Ternary { condition, then_expr, else_expr, .. } => {
            lemma_same_reflexive(*condition);
            lemma_same_reflexive(*then_expr);
            lemma_same_reflexive(*else_expr);
        },
        _ => {},
    }
}

/// Saying the same thing is symmetric, and the same expressions are reported
/// at the same place.
pub proof fn lemma_same_symmetric(a: Expr, b: Expr)
    requires
        same_expr(a, b),
    ensures
        same_expr(b, a),
        expr_span(a) == expr_span(b),
    decreases a,
{
    match (a, b) {
        (Expr::ArrayLiteral(xs, _), Expr::ArrayLiteral(ys, _)) => {
            assert forall|i: int| 0 <= i < ys@.len() implies same_expr(#[trigger] ys@[i], xs@[i]) by {
                lemma_same_symmetric(xs@[i], ys@[i]);
            }
        },
        (Expr::Index { array: a1, index: i1, .. }, Expr::Index { array: a2, index: i2, .. }) => {
            lemma_same_symmetric(*a1, *a2);
            lemma_same_symmetric(*i1, *i2);
        },
        (Expr::NewObject { args: xs, .. }, Expr::NewObject { args: ys, .. }) => {
            assert forall|i: int| 0 <= i < ys@.len() implies same_expr(#[trigger] ys@[i], xs@[i]) by {
                lemma_same_symmetric(xs@[i], ys@[i]);
            }
        },
        (Expr::Call { args: xs, .. }, Expr::Call { args: ys, .. }) => {
            assert forall|i: int| 0 <= i < ys@.len() implies same_expr(#[trigger] ys@[i], xs@[i]) by {
                lemma_same_symmetric(xs@[i], ys@[i]);
            }
        },
        (Expr::Unary { expr: x, .. }, Expr::Unary { expr: y, .. }) => {
            lemma_same_symmetric(*x, *y);
        },
        (Expr::Binary { left: l1, right: r1, .. }, Expr::Binary { left: l2, right: r2, .. }) => {
            lemma_same_symmetric(*l1, *l2);
            lemma_same_symmetric(*r1, *r2);
        },
        (
            Expr::Ternary { condition: c1, then_expr: t1, else_expr: e1, .. },
            Expr::Ternary { condition: c2, then_expr: t2, else_expr: e2, .. },
        ) => {
            lemma_same_symmetric(*c1, *c2);
            lemma_same_symmetric(*t1, *t2);
            lemma_same_symmetric(*e1, *e2);
        },
        _ => {},
    }
}

/// Saying the same thing is transitive.
pub proof fn lemma_same_transitive(a: Expr, b: Expr, c: Expr)
    requires
        same_expr(a, b),
        same_expr(b, c),
    ensures
        same_expr(a, c),
    decreases a,
{
    match (a, b, c) {
        (Expr::ArrayLiteral(xs, _), Expr::ArrayLiteral(ys, _), Expr::ArrayLiteral(zs, _)) => {
            assert forall|i: int| 0 <= i < xs@.len() implies same_expr(#[trigger] xs@[i], zs@[i]) by {
                lemma_same_transitive(xs@[i], ys@[i], zs@[i]);
            }
        },
        (
            Expr::Index { array: a1, index: i1, .. },
            Expr::Index { array: a2, index: i2, .. },
            Expr::Index { array: a3, index: i3, .. },
        ) => {
            lemma_same_transitive(*a1, *a2, *a3);
            lemma_same_transitive(*i1, *i2, *i3);
        },
        (
            Expr::NewObject { args: xs, .. },
            Expr::NewObject { args: ys, .. },
            Expr::NewObject { args: zs, .. },
        ) => {
            assert forall|i: int| 0 <= i < xs@.len() implies same_expr(#[trigger] xs@[i], zs@[i]) by {
                lemma_same_transitive(xs@[i], ys@[i], zs@[i]);
            }
        },
        (Expr::Call { args: xs, .. }, Expr::Call { args: ys, .. }, Expr::Call { args: zs, .. }) => {
            assert forall|i: int| 0 <= i < xs@.len() implies same_expr(#[trigger] xs@[i], zs@[i]) by {
                lemma_same_transitive(xs@[i], ys@[i], zs@[i]);
            }
        },
        (Expr::Unary { expr: x, .. }, Expr::Unary { expr: y, .. }, Expr::Unary { expr: z, .. }) => {
            lemma_same_transitive(*x, *y, *z);
        },
        (
            Expr::Binary { left: l1, right: r1, .. },
            Expr::Binary { left: l2, right: r2, .. },
            Expr::Binary { left: l3, right: r3, .. },
        ) => {
            lemma_same_transitive(*l1, *l2, *l3);
            lemma_same_transitive(*r1, *r2, *r3);
        },
        (
            Expr::Ternary { condition: c1, then_expr: t1, else_expr: e1, .. },
            Expr::Ternary { condition: c2, then_expr: t2, else_expr: e2, .. },
            Expr::Ternary { condition: c3, then_expr: t3, else_expr: e3, .. },
        ) => {
            lemma_same_transitive(*c1, *c2, *c3);
            lemma_same_transitive(*t1, *t2, *t3);
            lemma_same_transitive(*e1, *e2, *e3);
        },
        _ => {},
    }
}

// Readings of expressions, and how they are built up from the left.

/// `e` is a complete reading at `level` of the tokens from `i` up to `j`: the
/// token at `j` is there and does not continue it.
pub open spec fn reading(ts: Seq<TokenView>, level: nat, i: int, e: Expr, j: int) -> bool {
    &&& derives(ts, level, i, e, j)
    &&& 0 <= j < ts.len()
    &&& !continues(level, ts[j].kind)
}

/// What parsing owes a reading `e` that ends at `j`: an expression that says the
/// same, the position `j`, and no new diagnostics.
pub open spec fn gives(
    r: Option<Expr>,
    end: int,
    before: Seq<DiagnosticView>,
    after: Seq<DiagnosticView>,
    e: Expr,
    j: int,
) -> bool {
    &&& r matches Some(x) && same_expr(x, e)
    &&& end == j
    &&& after == before
}

/// Whether the token at `j` is an operator of the binary `level`.
pub open spec fn operator_of(ts: Seq<TokenView>, level: nat, j: int) -> bool {
    0 <= j < ts.len() && (binary_operator(ts[j].kind) matches Some((l, _)) && l == level)
}

/// Where a reading at a binary `level` may end: before a token that does not
/// continue it, or before another operator of that level.
pub open spec fn stops(ts: Seq<TokenView>, level: nat, j: int) -> bool {
    0 <= j < ts.len() && (!continues(level, ts[j].kind) || operator_of(ts, level, j))
}

/// From the operand `x`, which ends at `p`, the operators of the binary
/// `level` and the operands after them read on up to `j` as `e`: `e` is `x`
/// with those operators applied on the left, one after the other, split as
/// `sh` says.
pub open spec fn chain(ts: Seq<TokenView>, level: nat, x: Expr, p: int, e: Expr, j: int, sh: Shape) -> bool
    decreases e,
{
    ||| same_expr(x, e) && p == j
    ||| match (e, sh) {
        (Expr::Binary { left, op, right, span }, Shape::Split(k, sl, _)) => span == expr_span(*left)
            && chain(ts, level, x, p, *left, k, *sl) && 0 <= k < ts.len() && binary_operator(
            ts[k].kind,
        ) == Some((level, op)) && derives(ts, level + 1, k + 1, *right, j),
        _ => false,
    }
}

/// From the operand `x` ending at `p` the tokens read on up to `j` as `e`.
pub open spec fn chains(ts: Seq<TokenView>, level: nat, x: Expr, p: int, e: Expr, j: int) -> bool {
    exists|sh: Shape| #[trigger] chain(ts, level, x, p, e, j, sh)
}

/// A reading at a binary level starts with a complete reading at the next level.
pub proof fn lemma_chain_start(ts: Seq<TokenView>, level: nat, i: int, e: Expr, j: int) -> (base: (
    Expr,
    int,
))
    requires
        1 <= level <= 6,
        derives(ts, level, i, e, j),
        stops(ts, level, j),
    ensures
        reading(ts, level + 1, i, base.0, base.1),
        chains(ts, level, base.0, base.1, e, j),
    decreases j - i,
{
    let sh = choose|sh: Shape| #[trigger] derivation(ts, level, i, e, j, sh);
    if derivation(ts, level + 1, i, e, j, sh) {
        lemma_same_reflexive(e);
        assert(chain(ts, level, e, j, e, j, Shape::Leaf));
        (e, j)
    } else {
        match (e, sh) {
            (Expr::Binary { left, op, right, span }, Shape::Split(k, sl, sr)) => {
                assert(derivation(ts, level, i, *left, k, *sl));
                assert(derivation(ts, level + 1, k + 1, *right, j, *sr));
                let b = lemma_chain_start(ts, level, i, *left, k);
                let c = choose|c: Shape| #[trigger] chain(ts, level, b.0, b.1, *left, k, c);
                assert(chain(ts, level, b.0, b.1, e, j, Shape::Split(k, Box::new(c), Box::new(Shape::Leaf))));
                b
            },
            _ => {
                assert(false);
                (e, j)
            },
        }
    }
}

/// Where a reading at a binary level goes on from an operand it has not
/// finished: an operator of that level follows, and a complete reading at
/// the next level after it.
pub proof fn lemma_chain_step(ts: Seq<TokenView>, level: nat, x: Expr, p: int, e: Expr, j: int) -> (next: (
    BinaryOp,
    Expr,
    int,
))
    requires
        1 <= level <= 6,
        chains(ts, level, x, p, e, j),
        !(same_expr(x, e) && p == j),
        stops(ts, level, j),
    ensures
        0 <= p < ts.len(),
        binary_operator(ts[p].kind) == Some((level, next.0)),
        reading(ts, level + 1, p + 1, next.1, next.2),
        chains(
            ts,
            level,
            Expr::Binary { left: Box::new(x), op: next.0, right: Box::new(next.1), span: expr_span(x) },
            next.2,
            e,
            j,
        ),
    decreases e,
{
    let sh = choose|sh: Shape| #[trigger] chain(ts, level, x, p, e, j, sh);
    match (e, sh) {
        (Expr::Binary { left, op, right, span }, Shape::Split(k, sl, _)) => {
            if same_expr(x, *left) && p == k {
                lemma_same_symmetric(x, *left);
                lemma_same_reflexive(*right);
                let b = Expr::Binary { left: Box::new(x), op, right: Box::new(*right), span: expr_span(x) };
                assert(same_expr(b, e));
                assert(chain(ts, level, b, j, e, j, Shape::Leaf));
                (op, *right, j)
            } else {
                assert(chain(ts, level, x, p, *left, k, *sl));
                let n = lemma_chain_step(ts, level, x, p, *left, k);
                let b = Expr::Binary { left: Box::new(x), op: n.0, right: Box::new(n.1), span: expr_span(x) };
                let c = choose|c: Shape| #[trigger] chain(ts, level, b, n.2, *left, k, c);
                assert(chain(ts, level, b, n.2, e, j, Shape::Split(k, Box::new(c), Box::new(Shape::Leaf))));
                n
            }
        },
        _ => {
            assert(false);
            (BinaryOp::Add, e, j)
        },
    }
}

/// An operand that says the same thing goes on in the same way.
pub proof fn lemma_chain_same(ts: Seq<TokenView>, level: nat, x: Expr, y: Expr, p: int, e: Expr, j: int)
    requires
        chains(ts, level, x, p, e, j),
        same_expr(y, x),
    ensures
        chains(ts, level, y, p, e, j),
    decreases e,
{
    let sh = choose|sh: Shape| #[trigger] chain(ts, level, x, p, e, j, sh);
    if same_expr(x, e) && p == j {
        lemma_same_transitive(y, x, e);
        assert(chain(ts, level, y, p, e, j, sh));
    } else {
        match (e, sh) {
            (Expr::Binary { left, .. }, Shape::Split(k, sl, sr)) => {
                assert(chain(ts, level, x, p, *left, k, *sl));
                lemma_chain_same(ts, level, x, y, p, *left, k);
                let c = choose|c: Shape| #[trigger] chain(ts, level, y, p, *left, k, c);
                assert(chain(ts, level, y, p, e, j, Shape::Split(k, Box::new(c), sr)));
            },
            _ => {},
        }
    }
}

/// From the operand `x`, which ends at `p`, index suffixes `[ ... ]` read on
/// up to `j` as `e`, split as `sh` says.
pub open spec fn index_chain(ts: Seq<TokenView>, x: Expr, p: int, e: Expr, j: int, sh: Shape) -> bool
    decreases e,
{
    ||| same_expr(x, e) && p == j
    ||| match (e, sh) {
        (Expr::Index { array, index, span }, Shape::Split(k, sa, _)) => span == expr_span(*array)
            && index_chain(ts, x, p, *array, k, *sa) && 0 <= k && k + 2 < j && j <= ts.len()
            && ts[k].kind == Kind::LBracket && derives(ts, 0, k + 1, *index, j - 1) && ts[j
            - 1].kind == Kind::RBracket,
        _ => false,
    }
}

/// From the operand `x` ending at `p` index suffixes read on up to `j` as `e`.
pub open spec fn index_chains(ts: Seq<TokenView>, x: Expr, p: int, e: Expr, j: int) -> bool {
    exists|sh: Shape| #[trigger] index_chain(ts, x, p, e, j, sh)
}

/// A reading at the indexing level starts with a primary.
pub proof fn lemma_index_start(ts: Seq<TokenView>, i: int, e: Expr, j: int) -> (base: (Expr, int))
    requires
        derives(ts, 8, i, e, j),
    ensures
        derives(ts, 9, i, base.0, base.1),
        index_chains(ts, base.0, base.1, e, j),
    decreases j - i,
{
    let sh = choose|sh: Shape| #[trigger] derivation(ts, 8, i, e, j, sh);
    if derivation(ts, 9, i, e, j, sh) {
        lemma_same_reflexive(e);
        assert(index_chain(ts, e, j, e, j, Shape::Leaf));
        (e, j)
    } else {
        match (e, sh) {
            (Expr::Index { array, index, span }, Shape::Split(k, sa, si)) => {
                assert(derivation(ts, 8, i, *array, k, *sa));
                assert(derivation(ts, 0, k + 1, *index, j - 1, *si));
                let b = lemma_index_start(ts, i, *array, k);
                let c = choose|c: Shape| #[trigger] index_chain(ts, b.0, b.1, *array, k, c);
                assert(index_chain(ts, b.0, b.1, e, j, Shape::Split(k, Box::new(c), Box::new(Shape::Leaf))));
                b
            },
            _ => {
                assert(false);
                (e, j)
            },
        }
    }
}

/// Where index suffixes go on from an operand they have not finished: `[`,
/// a complete reading of the index, and `]`.
pub proof fn lemma_index_step(ts: Seq<TokenView>, x: Expr, p: int, e: Expr, j: int) -> (next: (Expr, int))
    requires
        index_chains(ts, x, p, e, j),
        !(same_expr(x, e) && p == j),
    ensures
        0 <= p < ts.len(),
        ts[p].kind == Kind::LBracket,
        reading(ts, 0, p + 1, next.0, next.1),
        ts[next.1].kind == Kind::RBracket,
        index_chains(
            ts,
            Expr::Index { array: Box::new(x), index: Box::new(next.0), span: expr_span(x) },
            next.1 + 1,
            e,
            j,
        ),
    decreases e,
{
    let sh = choose|sh: Shape| #[trigger] index_chain(ts, x, p, e, j, sh);
    match (e, sh) {
        (Expr::Index { array, index, span }, Shape::Split(k, sa, _)) => {
            if same_expr(x, *array) && p == k {
                lemma_same_symmetric(x, *array);
                lemma_same_reflexive(*index);
                let b = Expr::Index { array: Box::new(x), index: Box::new(*index), span: expr_span(x) };
                assert(same_expr(b, e));
                assert(index_chain(ts, b, j, e, j, Shape::Leaf));
                (*index, j - 1)
            } else {
                assert(index_chain(ts, x, p, *array, k, *sa));
                let n = lemma_index_step(ts, x, p, *array, k);
                let b = Expr::Index { array: Box::new(x), index: Box::new(n.0), span: expr_span(x) };
                let c = choose|c: Shape| #[trigger] index_chain(ts, b, n.1 + 1, *array, k, c);
                assert(index_chain(ts, b, n.1 + 1, e, j, Shape::Split(k, Box::new(c), Box::new(Shape::Leaf))));
                n
            }
        },
        _ => {
            assert(false);
            (e, j)
        },
    }
}

/// An operand that says the same thing takes the same index suffixes.
pub proof fn lemma_index_same(ts: Seq<TokenView>, x: Expr, y: Expr, p: int, e: Expr, j: int)
    requires
        index_chains(ts, x, p, e, j),
        same_expr(y, x),
    ensures
        index_chains(ts, y, p, e, j),
    decreases e,
{
    let sh = choose|sh: Shape| #[trigger] index_chain(ts, x, p, e, j, sh);
    if same_expr(x, e) && p == j {
        lemma_same_transitive(y, x, e);
        assert(index_chain(ts, y, p, e, j, sh));
    } else {
        match (e, sh) {
            (Expr::Index { array, .. }, Shape::Split(k, sa, si)) => {
                assert(index_chain(ts, x, p, *array, k, *sa));
                lemma_index_same(ts, x, y, p, *array, k);
                let c = choose|c: Shape| #[trigger] index_chain(ts, y, p, *array, k, c);
                assert(index_chain(ts, y, p, e, j, Shape::Split(k, Box::new(c), si)));
            },
            _ => {},
        }
    }
}

/// The tokens an operand can start with.
pub open spec fn starts_operand(k: Kind) -> bool {
    match k {
        Kind::IntLiteral(_) | Kind::FloatLiteral(_) | Kind::StringLiteral(_) | Kind::True
        | Kind::False | Kind::Identifier(_) | Kind::New | Kind::LBracket | Kind::LParen => true,
        _ => false,
    }
}

/// A reading starts with an operand, or, below the indexing level, with a
/// prefix operator.
pub proof fn lemma_first_token(ts: Seq<TokenView>, level: nat, i: int, e: Expr, j: int, sh: Shape)
    requires
        derivation(ts, level, i, e, j, sh),
    ensures
        0 <= i < ts.len(),
        level >= 8 ==> starts_operand(ts[i].kind),
        starts_operand(ts[i].kind) || ts[i].kind == Kind::Bang || ts[i].kind == Kind::Minus,
    decreases j - i, 10 - level,
{
    if level == 0 {
        if derivation(ts, 1, i, e, j, sh) {
            lemma_first_token(ts, 1, i, e, j, sh);
        } else {
            match (e, sh) {
                (Expr::Ternary { condition, .. }, Shape::Cond(k, _, sc, _, _)) => {
                    lemma_first_token(ts, 1, i, *condition, k, *sc);
                },
                _ => {},
            }
        }
    } else if level <= 6 {
        if derivation(ts, level + 1, i, e, j, sh) {
            lemma_first_token(ts, level + 1, i, e, j, sh);
        } else {
            match (e, sh) {
                (Expr::Binary { left, .. }, Shape::Split(k, sl, _)) => {
                    lemma_first_token(ts, level, i, *left, k, *sl);
                },
                _ => {},
            }
        }
    } else if level == 7 {
        if derivation(ts, 8, i, e, j, sh) {
            lemma_first_token(ts, 8, i, e, j, sh);
        }
    } else if level == 8 {
        if derivation(ts, 9, i, e, j, sh) {
            lemma_first_token(ts, 9, i, e, j, sh);
        } else {
            match (e, sh) {
                (Expr::Index { array, .. }, Shape::Split(k, sa, _)) => {
                    lemma_first_token(ts, 8, i, *array, k, *sa);
                },
                _ => {},
            }
        }
    } else if primary(ts, i, e, j, sh) {
        match e {
            Expr::Call { callee, .. } => match callee {
                CallTarget::Name(_) => {},
                CallTarget::Qualified { .. } => {},
            },
            _ => {},
        }
    }
}

/// A reading at the prefix level that starts with `!` or `-` is that operator
/// applied to a reading at the same level; any other is a reading at the
/// indexing level.
pub proof fn lemma_prefix_reading(ts: Seq<TokenView>, i: int, e: Expr, j: int)
    requires
        derives(ts, 7, i, e, j),
    ensures
        0 <= i < ts.len(),
        ts[i].kind == Kind::Bang ==> (e matches Expr::Unary { op, expr, span } && op == UnaryOp::Not
            && span == expr_span(*expr) && derives(ts, 7, i + 1, *expr, j)),
        ts[i].kind == Kind::Minus ==> (e matches Expr::Unary { op, expr, span } && op == UnaryOp::Neg
            && span == expr_span(*expr) && derives(ts, 7, i + 1, *expr, j)),
        !(ts[i].kind == Kind::Bang || ts[i].kind == Kind::Minus) ==> derives(ts, 8, i, e, j),
{
    let sh = choose|sh: Shape| #[trigger] derivation(ts, 7, i, e, j, sh);
    lemma_first_token(ts, 7, i, e, j, sh);
    if derivation(ts, 8, i, e, j, sh) {
        lemma_first_token(ts, 8, i, e, j, sh);
    } else {
        match e {
            Expr::Unary { op, expr, span } => {
                assert(derivation(ts, 7, i + 1, *expr, j, sh));
            },
            _ => {},
        }
    }
}

/// The first of items separated by commas, and where it ends.
pub proof fn lemma_seps_front(ts: Seq<TokenView>, i: int, items: Seq<Expr>, k: int) -> (a: int)
    requires
        seps(ts, i, items, k),
    ensures
        items.len() >= 1,
        derives(ts, 0, i, items[0], a),
        a <= k,
        items.len() == 1 ==> a == k,
        items.len() > 1 ==> a < k && ts[a].kind == Kind::Comma && seps(ts, a + 1, items.drop_first(), k),
    decreases items.len(),
{
    let sh = choose|sh: Shape| #[trigger] separated(ts, i, items, k, sh);
    if items.len() == 1 {
        assert(derivation(ts, 0, i, items[0], k, sh));
        k
    } else {
        match sh {
            Shape::Split(m, sp, sl) => {
                let front = items.drop_last();
                assert(separated(ts, i, front, m, *sp));
                assert(derivation(ts, 0, m + 1, items.last(), k, *sl));
                let a = lemma_seps_front(ts, i, front, m);
                assert(front[0] == items[0]);
                if front.len() == 1 {
                    let rest = items.drop_first();
                    assert(rest =~= seq![items.last()]);
                    assert(rest[0] == items.last());
                    assert(separated(ts, m + 1, rest, k, *sl));
                } else {
                    let rest = items.drop_first();
                    let sq = choose|sq: Shape| #[trigger] separated(ts, a + 1, front.drop_first(), m, sq);
                    assert(rest.drop_last() =~= front.drop_first());
                    assert(rest.last() == items.last());
                    assert(separated(ts, a + 1, rest, k, Shape::Split(m, Box::new(sq), sl)));
                }
                a
            },
            _ => {
                assert(false);
                k
            },
        }
    }
}

/// A list either is its closing token alone, or starts with an item and has
/// its items separated by commas up to the closing token.
pub proof fn lemma_list_opens(ts: Seq<TokenView>, i: int, items: Seq<Expr>, j: int, close: Kind)
    requires
        lists(ts, i, items, j, close),
        close == Kind::RParen || close == Kind::RBracket,
    ensures
        0 <= i < ts.len(),
        ts[i].kind == close ==> items.len() == 0 && j == i + 1,
        ts[i].kind != close ==> items.len() > 0 && seps(ts, i, items, j - 1) && 0 <= j - 1 < ts.len()
            && ts[j - 1].kind == close,
{
    let sh = choose|sh: Shape| #[trigger] list(ts, i, items, j, close, sh);
    if items.len() > 0 {
        assert(separated(ts, i, items, j - 1, sh));
        let a = lemma_seps_front(ts, i, items, j - 1);
        let d = choose|d: Shape| #[trigger] derivation(ts, 0, i, items[0], a, d);
        lemma_first_token(ts, 0, i, items[0], a, d);
    }
}

/// A complete reading at the conditional level is a complete reading at the
/// next level, or a condition, `?`, a branch, `:` and a branch, each a
/// complete reading.
pub proof fn lemma_conditional_reading(ts: Seq<TokenView>, i: int, e: Expr, j: int) -> (km: (int, int))
    requires
        reading(ts, 0, i, e, j),
    ensures
        reading(ts, 1, i, e, j) || (e matches Expr::Ternary { condition, then_expr, else_expr, span }
            && span == expr_span(*condition) && reading(ts, 1, i, *condition, km.0) && ts[km.0].kind
            == Kind::Question && reading(ts, 0, km.0 + 1, *then_expr, km.1) && ts[km.1].kind
            == Kind::Colon && reading(ts, 0, km.1 + 1, *else_expr, j)),
{
    let sh = choose|sh: Shape| #[trigger] derivation(ts, 0, i, e, j, sh);
    if derivation(ts, 1, i, e, j, sh) {
        (0, 0)
    } else {
        match (e, sh) {
            (
                Expr::Ternary { condition, then_expr, else_expr, span },
                Shape::Cond(k, m, sc, st, sf),
            ) => {
                assert(derivation(ts, 1, i, *condition, k as int, *sc));
                assert(derivation(ts, 0, k + 1, *then_expr, m as int, *st));
                assert(derivation(ts, 0, m + 1, *else_expr, j, *sf));
                (k, m)
            },
            _ => (0, 0),
        }
    }
}

// Statements are compared in the same way.

/// Two optional texts say the same.
pub open spec fn same_name(a: Option<String>, b: Option<String>) -> bool {
    match (a, b) {
        (Some(x), Some(y)) => x@ == y@,
        (None, None) => true,
        _ => false,
    }
}

/// Two variable declarations say the same thing.
pub open spec fn same_var(a: VarDecl, b: VarDecl) -> bool {
    &&& a.name@ == b.name@
    &&& a.explicit_type == b.explicit_type
    &&& same_expr(a.initializer, b.initializer)
    &&& same_name(a.entitlement, b.entitlement)
    &&& a.span == b.span
}

/// Two assignment targets say the same thing.
pub open spec fn same_target(a: AssignTarget, b: AssignTarget) -> bool {
    match (a, b) {
        (AssignTarget::Identifier(x), AssignTarget::Identifier(y)) => x@ == y@,
        (AssignTarget::Index { array: a1, index: i1 }, AssignTarget::Index { array: a2, index: i2 }) =>
            same_expr(a1, a2) && same_expr(i1, i2),
        _ => false,
    }
}

/// Two statements say the same thing.
pub open spec fn same_stmt(a: Stmt, b: Stmt) -> bool
    decreases a,
{
    match (a, b) {
        (Stmt::VarDecl(x), Stmt::VarDecl(y)) => same_var(x, y),
        (
            Stmt::Assign { target: t1, value: v1, span: s1 },
            Stmt::Assign { target: t2, value: v2, span: s2 },
        ) => same_target(t1, t2) && same_expr(v1, v2) && s1 == s2,
        (
            Stmt::If { condition: c1, then_branch: t1, else_branch: e1, span: s1 },
            Stmt::If { condition: c2, then_branch: t2, else_branch: e2, span: s2 },
        ) => same_expr(c1, c2) && s1 == s2 && t1@.len() == t2@.len() && (forall|i: int|
            0 <= i < t1@.len() ==> same_stmt(#[trigger] t1@[i], t2@[i])) && e1@.len() == e2@.len()
            && (forall|i: int| 0 <= i < e1@.len() ==> same_stmt(#[trigger] e1@[i], e2@[i])),
        (
            Stmt::While { condition: c1, body: b1, span: s1 },
            Stmt::While { condition: c2, body: b2, span: s2 },
        ) => same_expr(c1, c2) && s1 == s2 && b1@.len() == b2@.len() && forall|i: int|
            0 <= i < b1@.len() ==> same_stmt(#[trigger] b1@[i], b2@[i]),
        (
            Stmt::DoWhile { body: b1, condition: c1, span: s1 },
            Stmt::DoWhile { body: b2, condition: c2, span: s2 },
        ) => same_expr(c1, c2) && s1 == s2 && b1@.len() == b2@.len() && forall|i: int|
            0 <= i < b1@.len() ==> same_stmt(#[trigger] b1@[i], b2@[i]),
        (Stmt::Expr { expr: x1, span: s1 }, Stmt::Expr { expr: x2, span: s2 }) => same_expr(x1, x2)
            && s1 == s2,
        (Stmt::Block { statements: b1, span: s1 }, Stmt::Block { statements: b2, span: s2 }) => s1
            == s2 && b1@.len() == b2@.len() && forall|i: int|
            0 <= i < b1@.len() ==> same_stmt(#[trigger] b1@[i], b2@[i]),
        (Stmt::Return { value: v1, span: s1 }, Stmt::Return { value: v2, span: s2 }) => s1 == s2
            && match (v1, v2) {
            (Some(x), Some(y)) => same_expr(x, y),
            (None, None) => true,
            _ => false,
        },
        _ => false,
    }
}

/// Two lists of statements say the same thing, statement by statement.
pub open spec fn same_stmts(a: Seq<Stmt>, b: Seq<Stmt>) -> bool {
    &&& a.len() == b.len()
    &&& forall|i: int| 0 <= i < a.len() ==> same_stmt(#[trigger] a[i], b[i])
}

/// What the first token of a statement says about it.
pub proof fn lemma_stmt_start(ts: Seq<TokenView>, i: int, s: Stmt, j: int, sh: Shape)
    requires
        stmt_derivation(ts, i, s, j, sh),
    ensures
        0 <= i < j <= ts.len(),
        ts[i].kind != Kind::RBrace,
        ts[i].kind != Kind::Eof,
        s is VarDecl <==> ts[i].kind == Kind::Let,
        s is If <==> ts[i].kind == Kind::If,
        s is DoWhile <==> ts[i].kind == Kind::Do,
        s is Return <==> ts[i].kind == Kind::Return,
        ts[i].kind == Kind::While ==> s is While,
        ts[i].kind == Kind::For ==> for_derivation(ts, i, s, j, sh),
        ts[i].kind == Kind::LBrace ==> (s matches Stmt::Block { statements, span } && span == ts[i].span
            && block(ts, i, statements@, j, sh)),
        !(ts[i].kind == Kind::Let || ts[i].kind == Kind::If || ts[i].kind == Kind::While || ts[i].kind
            == Kind::Do || ts[i].kind == Kind::For || ts[i].kind == Kind::LBrace || ts[i].kind
            == Kind::Return) ==> (sh matches Shape::Split(k, s1, _) && simple(ts, i, s, k, *s1) && k
            < ts.len() && j == ends(ts, k)),
{
    match s {
        Stmt::Assign { target, value, span } => {
            assert(sh is Split);
            let k = sh->Split_0;
            let s1 = *sh->Split_1;
            assert(simple(ts, i, s, k, s1));
            assert(s1 is Split);
            let m = s1->Split_0;
            let sl = *s1->Split_1;
            let te = crate::grammar::target_expr(target, span);
            assert(derivation(ts, 0, i, te, m, sl));
            lemma_first_token(ts, 0, i, te, m, sl);
        },
        Stmt::Expr { expr, span } => {
            match sh {
                Shape::Split(k, s1, _) => {
                    assert(derivation(ts, 0, i, expr, k, *s1));
                    lemma_first_token(ts, 0, i, expr, k, *s1);
                },
                _ => {},
            }
        },
        _ => {
            if for_derivation(ts, i, s, j, sh) {
                assert(ts[i].kind == Kind::For);
            }
        },
    }
}

/// The first of statements one after another, and where it ends.
pub proof fn lemma_sequence_front(ts: Seq<TokenView>, a: int, stmts: Seq<Stmt>, b: int) -> (c: int)
    requires
        sequence_derives(ts, a, stmts, b),
    ensures
        stmts.len() == 0 ==> a == b,
        stmts.len() > 0 ==> a < c <= b && stmt_derives(ts, a, stmts[0], c) && sequence_derives(
            ts,
            c,
            stmts.drop_first(),
            b,
        ),
    decreases stmts.len(),
{
    let sh = choose|sh: Shape| #[trigger] stmt_sequence(ts, a, stmts, b, sh);
    if stmts.len() == 0 {
        a
    } else {
        match sh {
            Shape::Split(k, sp, sl) => {
                let front = stmts.drop_last();
                assert(stmt_sequence(ts, a, front, k, *sp));
                assert(stmt_derivation(ts, k, stmts.last(), b, *sl));
                lemma_stmt_start(ts, k, stmts.last(), b, *sl);
                if front.len() == 0 {
                    assert(a == k);
                    assert(stmts[0] == stmts.last());
                    assert(stmts.drop_first() =~= Seq::<Stmt>::empty());
                    assert(stmt_sequence(ts, b, stmts.drop_first(), b, Shape::Leaf));
                    b
                } else {
                    let c = lemma_sequence_front(ts, a, front, k);
                    assert(front[0] == stmts[0]);
                    let sq = choose|sq: Shape| #[trigger] stmt_sequence(ts, c, front.drop_first(), k, sq);
                    assert(stmts.drop_first().drop_last() =~= front.drop_first());
                    assert(stmts.drop_first().last() == stmts.last());
                    assert(stmt_sequence(ts, c, stmts.drop_first(), b, Shape::Split(k, Box::new(sq), sl)));
                    c
                }
            },
            _ => {
                assert(false);
                a
            },
        }
    }
}

/// `v` is `r` wrapped in zero or more array levels.
pub open spec fn wraps(v: ValueType, r: ValueType) -> bool
    decreases v,
{
    v == r || match v {
        ValueType::Array(inner) => wraps(*inner, r),
        _ => false,
    }
}

/// A spelled type wraps the type its keyword names.
pub proof fn lemma_spelled_base(ts: Seq<TokenView>, i: int, v: ValueType)
    requires
        spells_type(ts, i, v),
    ensures
        0 <= i < ts.len(),
        type_keyword(ts[i].kind) matches Some(b) && wraps(v, b),
    decreases v,
{
    match v {
        ValueType::Array(inner) => {
            lemma_spelled_base(ts, i, *inner);
        },
        _ => {},
    }
}

/// Where a spelled type goes on past a type it wraps: `[` and `]` follow, and
/// it wraps one more array level.
pub proof fn lemma_spelled_step(ts: Seq<TokenView>, i: int, v: ValueType, r: ValueType)
    requires
        spells_type(ts, i, v),
        wraps(v, r),
        v != r,
    ensures
        i + type_width(r) + 1 < ts.len(),
        ts[i + type_width(r)].kind == Kind::LBracket,
        ts[i + type_width(r) + 1].kind == Kind::RBracket,
        wraps(v, ValueType::Array(Box::new(r))),
    decreases v,
{
    match v {
        ValueType::Array(inner) => {
            if *inner != r {
                lemma_spelled_step(ts, i, *inner, r);
            }
        },
        _ => {},
    }
}

/// An expression written for an assignment target says the same as another
/// only when the targets do.
pub proof fn lemma_same_target(a: AssignTarget, s1: crate::span::Span, b: AssignTarget, s2: crate::span::Span)
    requires
        same_expr(target_expr(a, s1), target_expr(b, s2)),
    ensures
        same_target(a, b),
        s1 == s2,
{
}

/// Statements that say the same, one more on each side.
pub proof fn lemma_same_stmts_push(a: Seq<Stmt>, b: Seq<Stmt>, x: Stmt, y: Stmt)
    requires
        same_stmts(a, b),
        same_stmt(x, y),
    ensures
        same_stmts(a.push(x), b.push(y)),
{
    assert forall|i: int| 0 <= i < a.len() + 1 implies same_stmt(#[trigger] a.push(x)[i], b.push(y)[i]) by {
        if i < a.len() {
            assert(a.push(x)[i] == a[i]);
            assert(b.push(y)[i] == b[i]);
        }
    }
}

/// A statement that starts with no keyword is an assignment or an expression
/// statement, each part a complete reading.
pub proof fn lemma_simple_reading(ts: Seq<TokenView>, i: int, s: Stmt, j: int, sh: Shape) -> (mk: (int, int))
    requires
        stmt_derivation(ts, i, s, j, sh),
        !(ts[i].kind == Kind::Let || ts[i].kind == Kind::If || ts[i].kind == Kind::While || ts[i].kind
            == Kind::Do || ts[i].kind == Kind::For || ts[i].kind == Kind::LBrace || ts[i].kind
            == Kind::Return),
    ensures
        s is Assign || s is Expr,
        s matches Stmt::Assign { target, value, span } ==> reading(ts, 0, i, target_expr(target, span), mk.0)
            && ts[mk.0].kind == Kind::Assign && reading(ts, 0, mk.0 + 1, value, mk.1) && j == ends(ts, mk.1),
        s matches Stmt::Expr { expr, span } ==> reading(ts, 0, i, expr, mk.1) && ts[mk.1].kind != Kind::Assign
            && span == expr_span(expr) && j == ends(ts, mk.1),
{
    lemma_stmt_start(ts, i, s, j, sh);
    let k = sh->Split_0;
    let s1 = *sh->Split_1;
    assert(simple(ts, i, s, k, s1));
    match s {
        Stmt::Assign { target, value, span } => {
            let m = s1->Split_0;
            assert(derivation(ts, 0, i, target_expr(target, span), m, *s1->Split_1));
            assert(derivation(ts, 0, m + 1, value, k, *s1->Split_2));
            (m, k)
        },
        Stmt::Expr { expr, span } => {
            assert(derivation(ts, 0, i, expr, k, s1));
            (k, k)
        },
        _ => (k, k),
    }
}

/// The parts of an `if` statement, each a complete reading.
pub proof fn lemma_if_reading(ts: Seq<TokenView>, i: int, s: Stmt, j: int, sh: Shape) -> (km: (int, int))
    requires
        stmt_derivation(ts, i, s, j, sh),
        0 <= i < ts.len(),
        ts[i].kind == Kind::If,
    ensures
        s matches Stmt::If { condition, then_branch, else_branch, span } && {
            let k = km.0;
            let m = km.1;
            &&& span == ts[i].span
            &&& ts[i + 1].kind == Kind::LParen
            &&& reading(ts, 0, i + 2, condition, k)
            &&& ts[k].kind == Kind::RParen
            &&& block_derives(ts, k + 1, then_branch@, m)
            &&& m < ts.len()
            &&& (ts[m].kind == Kind::Else && ts[m + 1].kind == Kind::If ==> else_branch@.len() == 1
                && else_branch@[0] is If && stmt_derives(ts, m + 1, else_branch@[0], j))
            &&& (ts[m].kind == Kind::Else && ts[m + 1].kind != Kind::If ==> block_derives(
                ts,
                m + 1,
                else_branch@,
                j,
            ))
            &&& (ts[m].kind != Kind::Else ==> else_branch@.len() == 0 && j == m)
        },
{
    lemma_stmt_start(ts, i, s, j, sh);
    match (s, sh) {
        (Stmt::If { condition, then_branch, else_branch, span }, Shape::Cond(k, m, sc, st, se)) => {
            assert(derivation(ts, 0, i + 2, condition, k, *sc));
            assert(block(ts, k + 1, then_branch@, m, *st));
            if ts[m].kind == Kind::Else {
                if ts[m + 1].kind == Kind::If {
                    assert(stmt_derivation(ts, m + 1, else_branch@[0], j, *se));
                } else {
                    assert(block(ts, m + 1, else_branch@, j, *se));
                }
            }
            (k, m)
        },
        _ => (0, 0),
    }
}

/// The parts of a `while` loop, each a complete reading.
pub proof fn lemma_while_reading(ts: Seq<TokenView>, i: int, s: Stmt, j: int, sh: Shape) -> (k: int)
    requires
        stmt_derivation(ts, i, s, j, sh),
        0 <= i < ts.len(),
        ts[i].kind == Kind::While,
    ensures
        s matches Stmt::While { condition, body, span } && span == ts[i].span && ts[i + 1].kind
            == Kind::LParen && reading(ts, 0, i + 2, condition, k) && ts[k].kind == Kind::RParen
            && block_derives(ts, k + 1, body@, j),
{
    lemma_stmt_start(ts, i, s, j, sh);
    match (s, sh) {
        (Stmt::While { condition, body, span }, Shape::Split(k, sc, sb)) => {
            assert(!for_derivation(ts, i, s, j, sh));
            assert(derivation(ts, 0, i + 2, condition, k, *sc));
            assert(block(ts, k + 1, body@, j, *sb));
            k
        },
        _ => {
            assert(!for_derivation(ts, i, s, j, sh));
            0
        },
    }
}

/// The parts of a `do`-`while` loop, each a complete reading.
pub proof fn lemma_do_reading(ts: Seq<TokenView>, i: int, s: Stmt, j: int, sh: Shape) -> (km: (int, int))
    requires
        stmt_derivation(ts, i, s, j, sh),
        0 <= i < ts.len(),
        ts[i].kind == Kind::Do,
    ensures
        s matches Stmt::DoWhile { body, condition, span } && {
            let k = km.0;
            let m = km.1;
            &&& span == ts[i].span
            &&& block_derives(ts, i + 1, body@, k)
            &&& ts[k].kind == Kind::While
            &&& ts[k + 1].kind == Kind::LParen
            &&& reading(ts, 0, k + 2, condition, m)
            &&& ts[m].kind == Kind::RParen
            &&& m + 1 < ts.len()
            &&& j == ends(ts, m + 1)
        },
{
    lemma_stmt_start(ts, i, s, j, sh);
    match (s, sh) {
        (Stmt::DoWhile { body, condition, span }, Shape::Cond(k, m, sb, sc, _)) => {
            assert(block(ts, i + 1, body@, k, *sb));
            assert(derivation(ts, 0, k + 2, condition, m, *sc));
            (k, m)
        },
        _ => (0, 0),
    }
}

/// Two optional statements say the same thing.
pub open spec fn same_opt_stmt(a: Option<Stmt>, b: Option<Stmt>) -> bool {
    match (a, b) {
        (Some(x), Some(y)) => same_stmt(x, y),
        (None, None) => true,
        _ => false,
    }
}

/// The parts of an assignment or expression statement, each a complete reading.
pub proof fn lemma_simple_parts(ts: Seq<TokenView>, i: int, s: Stmt, k: int, sh: Shape) -> (m: int)
    requires
        simple(ts, i, s, k, sh),
    ensures
        s is Assign || s is Expr,
        0 <= i < ts.len(),
        starts_operand(ts[i].kind) || ts[i].kind == Kind::Bang || ts[i].kind == Kind::Minus,
        s matches Stmt::Assign { target, value, span } ==> reading(ts, 0, i, target_expr(target, span), m)
            && ts[m].kind == Kind::Assign && reading(ts, 0, m + 1, value, k),
        s matches Stmt::Expr { expr, span } ==> reading(ts, 0, i, expr, k) && ts[k].kind != Kind::Assign
            && span == expr_span(expr),
{
    match s {
        Stmt::Assign { target, value, span } => {
            let m = sh->Split_0;
            assert(derivation(ts, 0, i, target_expr(target, span), m, *sh->Split_1));
            assert(derivation(ts, 0, m + 1, value, k, *sh->Split_2));
            lemma_first_token(ts, 0, i, target_expr(target, span), m, *sh->Split_1);
            m
        },
        Stmt::Expr { expr, span } => {
            assert(derivation(ts, 0, i, expr, k, sh));
            lemma_first_token(ts, 0, i, expr, k, sh);
            k
        },
        _ => k,
    }
}

/// The parts of a `for` loop: its first clause ends at `a`, its condition
/// clause at `b`, its update at the `)` at `c`, and the `while` loop it stands
/// for is `s`, or the second statement of `s` when the first clause is written.
pub proof fn lemma_for_reading(ts: Seq<TokenView>, i: int, s: Stmt, j: int, sh: Shape) -> (parts: (
    int,
    int,
    int,
    Shape,
    Shape,
))
    requires
        stmt_derivation(ts, i, s, j, sh),
        0 <= i < ts.len(),
        ts[i].kind == Kind::For,
    ensures
        ({
            let (a, b, c, s_init, s_update) = parts;
            let has_init = ts[i + 2].kind != Kind::Semicolon;
            let init: Option<Stmt> = if has_init {
                Some(s->Block_statements@[0])
            } else {
                None
            };
            let w = if has_init {
                s->Block_statements@[1]
            } else {
                s
            };
            &&& i + 2 < ts.len()
            &&& ts[i + 1].kind == Kind::LParen
            &&& has_init ==> (s is Block && s->Block_span == ts[i].span && s->Block_statements@.len() == 2)
            &&& for_init(ts, i + 2, init, a, s_init)
            &&& i + 2 < a <= b <= c < j <= ts.len()
            &&& w is While
            &&& w->While_span == ts[i].span
            &&& (ts[a].kind == Kind::Semicolon ==> b == a + 1 && w->While_condition == Expr::BoolLiteral(
                true,
                ts[i].span,
            ))
            &&& (ts[a].kind != Kind::Semicolon ==> reading(ts, 0, a, w->While_condition, b - 1)
                && ts[b - 1].kind == Kind::Semicolon)
            &&& (ts[b].kind == Kind::RParen ==> c == b && block_derives(ts, c + 1, w->While_body@, j))
            &&& (ts[b].kind != Kind::RParen ==> w->While_body@.len() > 0 && simple(
                ts,
                b,
                w->While_body@.last(),
                c,
                s_update,
            ) && ts[c].kind == Kind::RParen && block_derives(ts, c + 1, w->While_body@.drop_last(), j))
        }),
{
    lemma_stmt_start(ts, i, s, j, sh);
    assert(for_derivation(ts, i, s, j, sh));
    match sh {
        Shape::Cond(a, b, s_init, s_cond, rest) => match *rest {
            Shape::Split(c, s_update, s_body) => {
                let w = if ts[i + 2].kind != Kind::Semicolon {
                    s->Block_statements@[1]
                } else {
                    s
                };
                assert(for_loop(ts, i, a, b, c, j, w, ts[i].span, *s_cond, *s_update, *s_body));
                assert(for_condition(ts, a, w->While_condition, b, ts[i].span, *s_cond));
                if ts[a].kind != Kind::Semicolon {
                    assert(derivation(ts, 0, a, w->While_condition, b - 1, *s_cond));
                }
                if ts[b].kind == Kind::RParen {
                    assert(block(ts, c + 1, w->While_body@, j, *s_body));
                } else {
                    assert(block(ts, c + 1, w->While_body@.drop_last(), j, *s_body));
                }
                (a, b, c, *s_init, *s_update)
            },
            _ => (0, 0, 0, Shape::Leaf, Shape::Leaf),
        },
        _ => (0, 0, 0, Shape::Leaf, Shape::Leaf),
    }
}

// Declarations are compared in the same way.

/// Two parameter lists say the same thing.
pub open spec fn same_param_list(a: Seq<FuncParam>, b: Seq<FuncParam>) -> bool {
    &&& a.len() == b.len()
    &&& forall|i: int|
        0 <= i < a.len() ==> (#[trigger] a[i]).name@ == b[i].name@ && a[i].ty == b[i].ty && a[i].span
            == b[i].span
}

/// Two functions say the same thing.
pub open spec fn same_func(a: FuncDecl, b: FuncDecl) -> bool {
    &&& a.name@ == b.name@
    &&& same_param_list(a.params@, b.params@)
    &&& a.return_type == b.return_type
    &&& same_name(a.right, b.right)
    &&& same_stmts(a.body@, b.body@)
    &&& a.span == b.span
}

/// Two declarations say the same thing.
pub open spec fn same_item(a: Item, b: Item) -> bool {
    match (a, b) {
        (Item::Capability(x), Item::Capability(y)) => x.name@ == y.name@ && same_expr(
            x.initializer,
            y.initializer,
        ) && x.span == y.span,
        (Item::Right(x), Item::Right(y)) => x.name@ == y.name@ && same_expr(x.initializer, y.initializer)
            && x.span == y.span,
        (Item::Var(x), Item::Var(y)) => same_var(x, y),
        (Item::Func(x), Item::Func(y)) => same_func(x, y),
        _ => false,
    }
}

/// Two lists of declarations say the same thing.
pub open spec fn same_items(a: Seq<Item>, b: Seq<Item>) -> bool {
    &&& a.len() == b.len()
    &&& forall|i: int| 0 <= i < a.len() ==> same_item(#[trigger] a[i], b[i])
}

/// Two body declarations say the same thing.
pub open spec fn same_body(a: BodyDecl, b: BodyDecl) -> bool {
    &&& a.name@ == b.name@
    &&& same_items(a.items@, b.items@)
    &&& a.span == b.span
}

/// What the first token of a declaration is.
pub proof fn lemma_item_start(ts: Seq<TokenView>, i: int, it: Item, j: int, sh: Shape)
    requires
        item_derivation(ts, i, it, j, sh),
    ensures
        0 <= i < ts.len(),
        ts[i].kind == Kind::Let || ts[i].kind == Kind::Func,
        i < j,
{
    match it {
        Item::Func(f) => {
            if ts[i].kind != Kind::Func {
                assert(crate::grammar::let_head(ts, i, f.right));
            }
            let p = if ts[i].kind == Kind::Func { i } else { crate::grammar::after_let_head(ts, i) };
            assert(crate::grammar::function(ts, p, f, j, sh));
            let q = choose|q: int| #[trigger] crate::grammar::parameters(ts, p + 3, f.params@, q) && q < ts.len()
                && if ts[q].kind == Kind::Arrow {
                spells_type(ts, q + 1, f.return_type) && block(ts, q + 1 + type_width(f.return_type), f.body@, j, sh)
            } else {
                f.return_type == ValueType::Void && block(ts, q, f.body@, j, sh)
            };
            if f.params@.len() > 0 {
                lemma_params_bound(ts, p + 3, f.params@, q - 1);
            }
        },
        Item::Var(d) => {
            let k = sh->Split_0;
            assert(crate::grammar::variable_declaration(ts, i, d, k, *sh->Split_1, true));
        },
        _ => {},
    }
}

/// A parameter sequence ends after where it starts.
pub proof fn lemma_params_bound(ts: Seq<TokenView>, p: int, ps: Seq<FuncParam>, e: int)
    requires
        param_sequence(ts, p, ps, e),
    ensures
        p < e,
    decreases ps.len(),
{
    if ps.len() > 1 {
        lemma_params_bound(ts, p, ps.drop_last(), e - param_width(ps.last()) - 1);
    }
}

/// The first of parameters separated by commas, and where it ends.
pub proof fn lemma_params_front(ts: Seq<TokenView>, p: int, ps: Seq<FuncParam>, e: int)
    requires
        param_sequence(ts, p, ps, e),
    ensures
        ps.len() >= 1,
        param_at(ts, p, ps[0]),
        ps.len() == 1 ==> e == p + param_width(ps[0]),
        ps.len() > 1 ==> p + param_width(ps[0]) < e && ts[p + param_width(ps[0])].kind == Kind::Comma
            && param_sequence(ts, p + param_width(ps[0]) + 1, ps.drop_first(), e),
    decreases ps.len(),
{
    if ps.len() > 1 {
        let front = ps.drop_last();
        let m = e - param_width(ps.last()) - 1;
        lemma_params_front(ts, p, front, m);
        assert(front[0] == ps[0]);
        let rest = ps.drop_first();
        if front.len() == 1 {
            assert(rest =~= seq![ps.last()]);
        } else {
            assert(rest.drop_last() =~= front.drop_first());
            assert(rest.last() == ps.last());
            lemma_params_bound(ts, p + param_width(ps[0]) + 1, front.drop_first(), m);
        }
    }
}

/// The first of declarations one after another, and where it ends.
pub proof fn lemma_items_front(ts: Seq<TokenView>, a: int, items: Seq<Item>, b: int) -> (c: (int, Shape))
    requires
        items_derive(ts, a, items, b),
    ensures
        items.len() == 0 ==> a == b,
        items.len() > 0 ==> a < c.0 <= b && item_derivation(ts, a, items[0], c.0, c.1) && items_derive(
            ts,
            c.0,
            items.drop_first(),
            b,
        ),
    decreases items.len(),
{
    let sh = choose|sh: Shape| #[trigger] item_sequence(ts, a, items, b, sh);
    if items.len() == 0 {
        (a, sh)
    } else {
        match sh {
            Shape::Split(k, sp, sl) => {
                let front = items.drop_last();
                assert(item_sequence(ts, a, front, k, *sp));
                assert(item_derivation(ts, k, items.last(), b, *sl));
                lemma_item_start(ts, k, items.last(), b, *sl);
                if front.len() == 0 {
                    assert(items[0] == items.last());
                    assert(items.drop_first() =~= Seq::<Item>::empty());
                    assert(item_sequence(ts, b, items.drop_first(), b, Shape::Leaf));
                    (b, *sl)
                } else {
                    let c = lemma_items_front(ts, a, front, k);
                    assert(front[0] == items[0]);
                    let sq = choose|sq: Shape| #[trigger] item_sequence(ts, c.0, front.drop_first(), k, sq);
                    assert(items.drop_first().drop_last() =~= front.drop_first());
                    assert(items.drop_first().last() == items.last());
                    assert(item_sequence(ts, c.0, items.drop_first(), b, Shape::Split(k, Box::new(sq), sl)));
                    c
                }
            },
            _ => {
                assert(false);
                (a, sh)
            },
        }
    }
}

/// Two programs say the same thing.
pub open spec fn same_program(a: crate::ast::Program, b: crate::ast::Program) -> bool {
    &&& crate::parser::import_views(a.imports@) == crate::parser::import_views(b.imports@)
    &&& same_body(a.body, b.body)
}

/// Declarations that say the same, one more on each side.
pub proof fn lemma_same_items_push(a: Seq<Item>, b: Seq<Item>, x: Item, y: Item)
    requires
        same_items(a, b),
        same_item(x, y),
    ensures
        same_items(a.push(x), b.push(y)),
{
    assert forall|i: int| 0 <= i < a.len() + 1 implies same_item(#[trigger] a.push(x)[i], b.push(y)[i]) by {
        if i < a.len() {
            assert(a.push(x)[i] == a[i]);
            assert(b.push(y)[i] == b[i]);
        }
    }
}

} // verus!
