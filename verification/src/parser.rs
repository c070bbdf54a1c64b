use vstd::prelude::*;

use crate::ast::{
    expr_span, expr_strings_below, AssignTarget, BinaryOp, BodyDecl, CallTarget, CapabilityDecl,
    Expr, FuncDecl, FuncParam, ImportDecl, Item, Program, RightDecl, Stmt, UnaryOp, ValueType,
    VarDecl,
};
use crate::diagnostics::{clean, error_at, error_count, extends, DiagnosticView, Diagnostics};
use crate::grammar::{
    annotation, continues, declares, derivation, derives, ends, lists, seps, simple, spells_type, stmt_derivation,
    stmt_derives, type_width, Shape,
};
use crate::readings::{
    gives, index_chains, lemma_index_same, lemma_index_step, lemma_list_opens, lemma_same_reflexive,
    lemma_seps_front, reading, same_expr, same_exprs, same_stmt, same_stmts,
};
use crate::span::Span;
use crate::text::string_of;
use crate::token::{
    kind_tag, token_str_len, Kind, Token, TokenKind, TokenView, TAG_AND_AND, TAG_ARROW, TAG_ASSIGN, TAG_BANG,
    TAG_BODY, TAG_BOOL_TYPE, TAG_COLON, TAG_COMMA, TAG_DO, TAG_DOT, TAG_ELSE, TAG_EOF, TAG_EQ_EQ,
    TAG_FLOAT_TYPE, TAG_FOR, TAG_FUNC, TAG_GREATER, TAG_GREATER_EQ, TAG_IF, TAG_IMPORT,
    TAG_INT_TYPE, TAG_L_BRACE, TAG_L_BRACKET, TAG_L_PAREN, TAG_LESS, TAG_LESS_EQ, TAG_LET,
    TAG_MINUS, TAG_NOT_EQ, TAG_OR_OR, TAG_PERCENT, TAG_PLUS, TAG_QUESTION, TAG_R_BRACE,
    TAG_R_BRACKET, TAG_R_PAREN, TAG_RETURN, TAG_SEMICOLON, TAG_SLASH, TAG_STAR, TAG_STRING_TYPE,
    TAG_WHILE,
};

verus! {

/// Length of the longest string literal among the tokens.
pub open spec fn max_str(ts: Seq<TokenView>) -> nat
    decreases ts.len(),
{
    if ts.len() == 0 {
        0
    } else {
        let m = max_str(ts.drop_last());
        let l = token_str_len(ts.last());
        if l > m {
            l
        } else {
            m
        }
    }
}

pub proof fn lemma_max_str(ts: Seq<TokenView>, i: int)
    requires
        0 <= i < ts.len(),
    ensures
        token_str_len(ts[i]) <= max_str(ts),
    decreases ts.len(),
{
    if i < ts.len() - 1 {
        lemma_max_str(ts.drop_last(), i);
    }
}

pub open spec fn views(ts: Seq<Token>) -> Seq<TokenView> {
    ts.map_values(|t: Token| t@)
}

/// Whether a token sequence can be parsed: it is not empty and its last token is
/// the end of input.
pub open spec fn well_terminated(ts: Seq<Token>) -> bool {
    &&& ts.len() > 0
    &&& ts.last().kind@ == Kind::Eof
}

/// The imports at the start of a program, read from position `i`: each `import`
/// keyword is followed by a module name and an optional `;`. Gives the imported
/// names with the spans of their keywords, and the position after the imports;
/// nothing when an `import` has no name after it.
pub open spec fn import_section(ts: Seq<TokenView>, i: int) -> Option<(Seq<(Seq<char>, Span)>, int)>
    decreases ts.len() - i,
{
    if 0 <= i < ts.len() && ts[i].kind == Kind::Import {
        if i + 1 < ts.len() && ts[i + 1].kind is Identifier {
            let next = if i + 2 < ts.len() && ts[i + 2].kind == Kind::Semicolon {
                i + 3
            } else {
                i + 2
            };
            match import_section(ts, next) {
                Some((rest, end)) => Some(
                    (seq![(ts[i + 1].kind->Identifier_0, ts[i].span)] + rest, end),
                ),
                None => None,
            }
        } else {
            None
        }
    } else {
        Some((Seq::empty(), i))
    }
}

/// The imports of a program as plain values.
pub open spec fn import_views(imports: Seq<ImportDecl>) -> Seq<(Seq<char>, Span)> {
    imports.map_values(|d: ImportDecl| (d.module@, d.span))
}

/// A parsed program's header: its imports are those of the import section,
/// which is followed by `body` and the body's name.
pub open spec fn header_fits(ts: Seq<TokenView>, p: Program) -> bool {
    &&& import_section(ts, 0) matches Some((imports, end))
    &&& import_views(p.imports@) == imports
    &&& 0 <= end && end + 1 < ts.len()
    &&& ts[end].kind == Kind::Body
    &&& ts[end + 1].kind == Kind::Identifier(p.body.name@)
}

/// A program read from the tokens: its import section, then its one body, whose
/// closing `}` is followed by the end of input.
pub open spec fn program_derives(ts: Seq<TokenView>, p: Program) -> bool {
    &&& import_section(ts, 0) matches Some((imports, end))
    &&& import_views(p.imports@) == imports
    &&& exists|j: int| #[trigger] crate::grammar::body_derives(ts, end, p.body, j) && 0 <= j < ts.len()
        && ts[j].kind == Kind::Eof
}

/// Parses a token sequence into a program. Syntax errors are reported to
/// `diagnostics`; the parser recovers from errors inside a body and inside blocks,
/// so a program may come back together with errors. When no program comes back,
/// at least one error was reported; when no error was reported, the program is
/// the reading of the tokens in the grammar. Conversely, tokens that read as a
/// program in the grammar are parsed without any diagnostic, into a program that
/// says the same as every such reading: the reading is unique.
pub fn parse(tokens: Vec<Token>, diagnostics: &mut Diagnostics) -> (r: Option<Program>)
    requires
        well_terminated(tokens@),
    ensures
        extends(old(diagnostics)@, final(diagnostics)@),
        error_count(old(diagnostics)@) <= error_count(final(diagnostics)@),
        r is None ==> error_count(old(diagnostics)@) < error_count(final(diagnostics)@),
        r matches Some(p) ==> header_fits(views(tokens@), p),
        error_count(final(diagnostics)@) == error_count(old(diagnostics)@) ==> (r matches Some(p)
            && program_derives(views(tokens@), p)),
        forall|p: Program|
            #[trigger] program_derives(views(tokens@), p) ==> (r matches Some(x) && crate::readings::same_program(
                x,
                p,
            )) && final(diagnostics)@ == old(diagnostics)@,
{
    let mut parser = Parser::new(tokens);
    parser.parse_program(diagnostics)
}

/// Parses the source of an interpolated expression: all of it reads as the
/// expression that comes back, and when it lexes cleanly and reads as an
/// expression, that expression comes back. The error is the first diagnostic that lexing or
/// parsing reported, or a message saying what is wrong.
pub fn parse_expression_fragment(fragment: &str) -> (r: Result<Expr, String>)
    requires
        fragment@.len() < usize::MAX,
    ensures
        match r {
            Ok(e) => expr_strings_below(e, fragment@.len() + 1),
            Err(_) => true,
        },
        crate::diagnostics::has_error(crate::lexer::lex_spec(fragment@).1) ==> r is Err && r->Err_0@
            == crate::lexer::lex_spec(fragment@).1[0].message,
        r matches Ok(e) ==> exists|n: int|
            #[trigger] derives(crate::lexer::lex_spec(fragment@).0, 0, 0, e, n)
                && crate::lexer::lex_spec(fragment@).0[n].kind == Kind::Eof,
        !crate::diagnostics::has_error(crate::lexer::lex_spec(fragment@).1) ==> forall|e: Expr, n: int|
            #[trigger] derives(crate::lexer::lex_spec(fragment@).0, 0, 0, e, n) && 0 <= n
                < crate::lexer::lex_spec(fragment@).0.len() && crate::lexer::lex_spec(fragment@).0[n].kind
                == Kind::Eof ==> (r matches Ok(x) && same_expr(x, e)),
        !crate::diagnostics::has_error(crate::lexer::lex_spec(fragment@).1) ==> forall|e: Expr, n: int|
            #[trigger] derives(crate::lexer::lex_spec(fragment@).0, 0, 0, e, n) && 0 <= n
                < crate::lexer::lex_spec(fragment@).0.len() && crate::lexer::lex_spec(fragment@).0[n].kind
                != Kind::Eof && !crate::grammar::continues(0, crate::lexer::lex_spec(fragment@).0[n].kind)
                ==> (r matches Err(m) && m@ == "Unexpected tokens after interpolation expression"@),
{
    let mut diagnostics = Diagnostics::new();
    let tokens = crate::lexer::lex(fragment, &mut diagnostics);
    proof {
        crate::lexer::lemma_lex_ends_with_eof(fragment@, 0);
        crate::lexer::lemma_lex_strings_shorter(fragment@, 0);
        assert(views(tokens@) == crate::lexer::tokens_view(tokens@));
        assert(diagnostics@ =~= crate::lexer::lex_spec(fragment@).1);
        let vs = views(tokens@);
        assert(vs.len() == tokens@.len());
        assert(vs.last() == tokens@.last()@);
        lemma_max_below(vs, fragment@.len());
    }
    if diagnostics.has_errors() {
        return Err(first_message(&diagnostics, "Invalid interpolation expression"));
    }
    let mut parser = Parser::new(tokens);
    let ghost s0 = parser;
    let ghost d0 = diagnostics@;
    proof {
        assert(s0.toks() == crate::lexer::lex_spec(fragment@).0);
        assert forall|e: Expr, n: int|
            #[trigger] derives(crate::lexer::lex_spec(fragment@).0, 0, 0, e, n) && 0 <= n
                < crate::lexer::lex_spec(fragment@).0.len() && crate::lexer::lex_spec(fragment@).0[n].kind
                == Kind::Eof implies reading(s0.toks(), 0, s0.index as int, e, n) by {}
        assert forall|e: Expr, n: int|
            #[trigger] derives(crate::lexer::lex_spec(fragment@).0, 0, 0, e, n) && 0 <= n
                < crate::lexer::lex_spec(fragment@).0.len() && crate::lexer::lex_spec(fragment@).0[n].kind
                != Kind::Eof && !crate::grammar::continues(0, crate::lexer::lex_spec(fragment@).0[n].kind)
                implies reading(s0.toks(), 0, s0.index as int, e, n) by {}
    }
    let expr = match parser.parse_expression(&mut diagnostics) {
        Some(e) => e,
        None => {
            return Err(first_message(&diagnostics, "Expected expression in interpolation"));
        },
    };
    proof {
        crate::ast::lemma_strings_below_mono(expr, parser.bound(), fragment@.len() + 1);
    }
    if parser.current_tag() != TAG_EOF {
        return Err(string_of("Unexpected tokens after interpolation expression"));
    }
    proof {
        assert(parser.toks() == crate::lexer::lex_spec(fragment@).0);
        assert(parser.toks()[parser.index as int].kind == Kind::Eof);
    }
    if diagnostics.has_errors() {
        return Err(first_message(&diagnostics, "Invalid interpolation expression"));
    }
    Ok(expr)
}

proof fn lemma_max_below(ts: Seq<TokenView>, n: nat)
    requires
        forall|k: int| 0 <= k < ts.len() ==> token_str_len(#[trigger] ts[k]) <= n,
    ensures
        max_str(ts) <= n,
    decreases ts.len(),
{
    if ts.len() > 0 {
        let p = ts.drop_last();
        assert forall|k: int| 0 <= k < p.len() implies token_str_len(#[trigger] p[k]) <= n by {
            assert(p[k] == ts[k]);
        }
        lemma_max_below(p, n);
        assert(token_str_len(ts[ts.len() - 1]) <= n);
    }
}

/// The message of the first diagnostic, or `fallback` when there is none.
fn first_message(diagnostics: &Diagnostics, fallback: &str) -> (m: String)
    ensures
        diagnostics@.len() > 0 ==> m@ == diagnostics@[0].message,
        diagnostics@.len() == 0 ==> m@ == fallback@,
{
    let items = diagnostics.items();
    if items.len() > 0 {
        assert(items@.map_values(|d: crate::diagnostics::Diagnostic| d@)[0] == items@[0]@);
        items[0].message.clone()
    } else {
        string_of(fallback)
    }
}

/// The state of the parser: the tokens and the position of the current one.
struct Parser {
    tokens: Vec<Token>,
    index: usize,
}

/// A token at which recovery after a malformed declaration stops: the end of input,
/// a closing brace, or the start of the next declaration.
spec fn item_boundary(k: Kind) -> bool {
    k == Kind::Eof || k == Kind::RBrace || k == Kind::Let || k == Kind::Func
}

/// A token at which recovery after a malformed statement stops: the end of input, a
/// closing brace, a semicolon, or the start of the next statement.
spec fn statement_boundary(k: Kind) -> bool {
    k == Kind::Eof || k == Kind::RBrace || k == Kind::Semicolon || k == Kind::If || k == Kind::While
        || k == Kind::Do || k == Kind::For || k == Kind::Let || k == Kind::Return
}

/// The first position from `i` on whose token is an item boundary.
spec fn item_stop(ts: Seq<TokenView>, i: int) -> int
    decreases ts.len() - i,
{
    if i < 0 || i >= ts.len() || item_boundary(ts[i].kind) {
        i
    } else {
        item_stop(ts, i + 1)
    }
}

/// The first position from `i` on whose token is a statement boundary.
spec fn statement_stop(ts: Seq<TokenView>, i: int) -> int
    decreases ts.len() - i,
{
    if i < 0 || i >= ts.len() || statement_boundary(ts[i].kind) {
        i
    } else {
        statement_stop(ts, i + 1)
    }
}

/// At `i` starts an expression statement whose expression `e` is read up to an
/// `=` at `m`, and `e` is neither a variable nor an indexed element.
spec fn bad_target(ts: Seq<TokenView>, i: int, e: Expr, m: int) -> bool {
    &&& 0 <= i < ts.len()
    &&& !(ts[i].kind == Kind::Let || ts[i].kind == Kind::If || ts[i].kind == Kind::While || ts[i].kind
        == Kind::Do || ts[i].kind == Kind::For || ts[i].kind == Kind::LBrace || ts[i].kind == Kind::Return)
    &&& reading(ts, 0, i, e, m)
    &&& ts[m].kind == Kind::Assign
    &&& !(e is Identifier || e is Index)
}

/// `b` is a later state of the parser `a`: same tokens, position not moved back.
spec fn steps(a: Parser, b: Parser) -> bool {
    &&& b.wf()
    &&& b.tokens@ == a.tokens@
    &&& a.index <= b.index
}

/// The diagnostics were only added to, and the error count did not go down.
pub open spec fn grows(a: Seq<DiagnosticView>, b: Seq<DiagnosticView>) -> bool {
    &&& extends(a, b)
    &&& error_count(a) <= error_count(b)
}

impl Parser {
    spec fn wf(&self) -> bool {
        &&& well_terminated(self.tokens@)
        &&& self.index < self.tokens@.len()
    }

    spec fn cur(&self) -> TokenView {
        self.tokens@[self.index as int]@
    }

    spec fn toks(&self) -> Seq<TokenView> {
        views(self.tokens@)
    }

    spec fn bound(&self) -> nat {
        max_str(views(self.tokens@)) + 1
    }

    /// Whether the current token is not the end of input, so that the next
    /// successful step moves forward.
    spec fn movable(&self) -> bool {
        self.cur().kind != Kind::Eof
    }

    fn new(tokens: Vec<Token>) -> (p: Parser)
        requires
            well_terminated(tokens@),
        ensures
            p.wf(),
            p.tokens@ == tokens@,
            p.index == 0,
    {
        Parser { tokens, index: 0 }
    }

    fn current_tag(&self) -> (t: u8)
        requires
            self.wf(),
        ensures
            t == kind_tag(self.cur().kind),
    {
        self.tokens[self.index].kind.tag()
    }

    fn current_span(&self) -> (s: Span)
        requires
            self.wf(),
        ensures
            s == self.cur().span,
    {
        self.tokens[self.index].span
    }

    fn check(&self, tag: u8) -> (b: bool)
        requires
            self.wf(),
        ensures
            b == (kind_tag(self.cur().kind) == tag),
    {
        self.current_tag() == tag
    }

    fn check_identifier_text(&self, expected: &str) -> (b: bool)
        requires
            self.wf(),
        ensures
            b == (self.cur().kind == Kind::Identifier(expected@)),
    {
        match &self.tokens[self.index].kind {
            TokenKind::Identifier(text) => crate::text::str_eq(text.as_str(), expected),
            _ => false,
        }
    }

    proof fn lemma_not_last(&self)
        requires
            self.wf(),
            self.movable(),
        ensures
            self.index + 1 < self.tokens@.len(),
    {
    }

    /// Takes the current token; moves past it unless it is the end of input.
    fn advance(&mut self) -> (t: Token)
        requires
            old(self).wf(),
        ensures
            steps(*old(self), *final(self)),
            t@ == old(self).cur(),
            final(self).index == if old(self).movable() {
                old(self).index + 1
            } else {
                old(self).index as int
            },
            token_str_len(t@) < old(self).bound(),
    {
        proof {
            lemma_max_str(views(self.tokens@), self.index as int);
        }
        let token = self.tokens[self.index].duplicate();
        if token.kind.tag() != TAG_EOF {
            proof {
                assert(token@ == self.cur());
                assert(self.cur().kind != Kind::Eof);
                assert(self.tokens@.last() == self.tokens@[self.tokens@.len() - 1]);
            }
            assert(self.index + 1 < self.tokens.len());
            self.index += 1;
        }
        token
    }

    fn consume_if(&mut self, tag: u8) -> (r: bool)
        requires
            old(self).wf(),
            tag != TAG_EOF,
        ensures
            steps(*old(self), *final(self)),
            r == (kind_tag(old(self).cur().kind) == tag),
            r ==> final(self).index == old(self).index + 1,
            !r ==> final(self).index == old(self).index,
    {
        if self.check(tag) {
            self.advance();
            true
        } else {
            false
        }
    }

    fn expect(&mut self, tag: u8, message: &str, diagnostics: &mut Diagnostics) -> (r: Option<Token>)
        requires
            old(self).wf(),
            tag != TAG_EOF,
        ensures
            steps(*old(self), *final(self)),
            grows(old(diagnostics)@, final(diagnostics)@),
            r is Some <==> kind_tag(old(self).cur().kind) == tag,
            r matches Some(t) ==> t@ == old(self).cur() && final(self).index == old(self).index + 1
                && final(diagnostics)@ == old(diagnostics)@,
            r is None ==> final(self).index == old(self).index && error_count(
                old(diagnostics)@,
            ) < error_count(final(diagnostics)@),
    {
        if self.check(tag) {
            Some(self.advance())
        } else {
            let span = self.current_span();
            diagnostics.error(Some(span), string_of(message));
            None
        }
    }

    fn expect_identifier(&mut self, message: &str, diagnostics: &mut Diagnostics) -> (r: Option<
        String,
    >)
        requires
            old(self).wf(),
        ensures
            steps(*old(self), *final(self)),
            grows(old(diagnostics)@, final(diagnostics)@),
            r matches Some(s) ==> old(self).cur().kind == Kind::Identifier(s@) && final(self).index
                == old(self).index + 1,
            r is Some ==> final(diagnostics)@ == old(diagnostics)@,
            r is None ==> !(old(self).cur().kind is Identifier),
            r is None ==> error_count(old(diagnostics)@) < error_count(final(diagnostics)@),
            old(self).movable() ==> final(self).index == old(self).index + 1,
    {
        let token = self.advance();
        match token.kind {
            TokenKind::Identifier(value) => Some(value),
            _ => {
                diagnostics.error(Some(token.span), string_of(message));
                None
            },
        }
    }

    fn parse_program(&mut self, diagnostics: &mut Diagnostics) -> (r: Option<Program>)
        requires
            old(self).wf(),
            old(self).index == 0,
        ensures
            steps(*old(self), *final(self)),
            grows(old(diagnostics)@, final(diagnostics)@),
            r is None ==> error_count(old(diagnostics)@) < error_count(final(diagnostics)@),
            r matches Some(p) ==> header_fits(views(old(self).tokens@), p),
            r matches Some(p) ==> (clean(old(diagnostics)@, final(diagnostics)@) ==> program_derives(
                views(old(self).tokens@),
                p,
            )),
            forall|p: Program|
                #[trigger] program_derives(views(old(self).tokens@), p) ==> (r matches Some(x)
                    && crate::readings::same_program(x, p)) && final(diagnostics)@ == old(diagnostics)@,
        decreases old(self).tokens@.len() - old(self).index, 40int,
    {
        let ghost p0 = *self;
        let ghost d0 = diagnostics@;
        let ghost ts = views(self.tokens@);
        let mut imports: Vec<ImportDecl> = Vec::new();
        assert(import_views(imports@) =~= Seq::<(Seq<char>, Span)>::empty());
        assert(import_section(ts, 0) == match import_section(ts, 0) {
            Some((rest, end)) => Some((Seq::<(Seq<char>, Span)>::empty() + rest, end)),
            None => None,
        }) by {
            if let Some((rest, end)) = import_section(ts, 0) {
                assert(Seq::<(Seq<char>, Span)>::empty() + rest =~= rest);
            }
        }
        while self.check(TAG_IMPORT)
            invariant
                steps(p0, *self),
                grows(d0, diagnostics@),
                p0 == *old(self),
                d0 == old(diagnostics)@,
                ts == views(self.tokens@),
                import_section(ts, 0) == match import_section(ts, self.index as int) {
                    Some((rest, end)) => Some((import_views(imports@) + rest, end)),
                    None => None,
                },
                forall|p: Program| #[trigger] program_derives(ts, p) ==> diagnostics@ == d0,
            decreases self.tokens@.len() - self.index,
        {
            let ghost at = self.index as int;
            proof {
                self.lemma_not_last();
                assert(ts[at] == self.cur());
                assert(ts[at + 1] == self.tokens@[at + 1]@);
            }
            let import_token = self.advance();
            let module = match self.expect_identifier(
                "Expected a module name after import",
                diagnostics,
            ) {
                Some(m) => m,
                None => {
                    proof {
                        assert(import_section(ts, at) is None);
                        assert forall|p: Program| #[trigger] program_derives(ts, p) implies false by {}
                    }
                    return None;
                },
            };
            let ghost before = import_views(imports@);
            imports.push(ImportDecl { module, span: import_token.span });
            assert(import_views(imports@) =~= before.push((ts[at + 1].kind->Identifier_0, ts[at].span)));
            let ghost mid = self.index as int;
            proof {
                assert(ts[mid] == self.cur());
            }
            self.consume_if(TAG_SEMICOLON);
            proof {
                let step = seq![(ts[at + 1].kind->Identifier_0, ts[at].span)];
                if let Some((rest, end)) = import_section(ts, self.index as int) {
                    assert(import_views(imports@) + rest =~= before + (step + rest));
                }
            }
        }
        proof {
            assert(ts[self.index as int] == self.cur());
            assert(import_section(ts, self.index as int) == Some((Seq::<(Seq<char>, Span)>::empty(), self.index as int)));
            assert(import_views(imports@) + Seq::<(Seq<char>, Span)>::empty() =~= import_views(imports@));
        }
        let ghost body_at = self.index as int;
        let ghost s_b = *self;
        proof {
            assert(s_b.toks() == ts);
        }
        let body = match self.parse_body_decl(diagnostics) {
            Some(b) => b,
            None => {
                proof {
                    assert forall|p: Program| #[trigger] program_derives(ts, p) implies false by {
                        let j = choose|j: int| #[trigger] crate::grammar::body_derives(ts, body_at, p.body, j);
                        assert(crate::grammar::body_derives(s_b.toks(), s_b.index as int, p.body, j));
                    }
                }
                return None;
            },
        };
        let ghost d_body = diagnostics@;
        if self.current_tag() != TAG_EOF {
            let at = self.current_span();
            diagnostics.error(Some(at), string_of("Expected end of input after body"));
        }
        let program = Program { imports, body };
        proof {
            assert(ts[self.index as int] == self.cur());
            if clean(d0, diagnostics@) {
                assert(clean(d0, d_body));
                assert(old(self).toks() =~= self.toks());
                assert(crate::grammar::body_derives(ts, body_at, program.body, self.index as int));
            }
            assert forall|p: Program| #[trigger] program_derives(ts, p) implies crate::readings::same_program(program, p) && diagnostics@ == d0 by {
                let j = choose|j: int| #[trigger] crate::grammar::body_derives(ts, body_at, p.body, j);
                assert(crate::grammar::body_derives(s_b.toks(), s_b.index as int, p.body, j));
            }
        }
        Some(program)
    }

    #[verifier::rlimit(60)]
    #[verifier::spinoff_prover]
    fn parse_body_decl(&mut self, diagnostics: &mut Diagnostics) -> (r: Option<BodyDecl>)
        requires
            old(self).wf(),
        ensures
            r matches Some(b) ==> (clean(old(diagnostics)@, final(diagnostics)@) ==> crate::grammar::body_derives(
                old(self).toks(),
                old(self).index as int,
                b,
                final(self).index as int,
            )),
            steps(*old(self), *final(self)),
            grows(old(diagnostics)@, final(diagnostics)@),
            r is None ==> error_count(old(diagnostics)@) < error_count(final(diagnostics)@),
            r matches Some(b) ==> old(self).cur().kind == Kind::Body && old(self).index + 1
                < old(self).tokens@.len() && old(self).tokens@[old(self).index + 1]@.kind
                == Kind::Identifier(b.name@),
            forall|bd: BodyDecl, j: int|
                #[trigger] crate::grammar::body_derives(old(self).toks(), old(self).index as int, bd, j) ==> (r matches Some(
                    x,
                ) && crate::readings::same_body(x, bd)) && final(self).index == j && final(diagnostics)@ == old(
                    diagnostics,
                )@,
        decreases old(self).tokens@.len() - old(self).index, 39int,
    {
        let ghost p0 = *self;
        let ghost d0 = diagnostics@;
        let body_token = match self.expect(TAG_BODY, "Expected 'body' keyword", diagnostics) {
            Some(t) => t,
            None => {
                proof {
                    assert forall|bd: BodyDecl, j: int| #[trigger] crate::grammar::body_derives(p0.toks(), p0.index as int, bd, j) implies false by {}
                }
                return None;
            },
        };
        let body_name = match self.expect_identifier("Expected body name", diagnostics) {
            Some(n) => n,
            None => {
                proof {
                    assert forall|bd: BodyDecl, j: int| #[trigger] crate::grammar::body_derives(p0.toks(), p0.index as int, bd, j) implies false by {}
                }
                return None;
            },
        };
        if self.expect(TAG_L_BRACE, "Expected '{' after body declaration", diagnostics).is_none() {
            proof {
                assert forall|bd: BodyDecl, j: int| #[trigger] crate::grammar::body_derives(p0.toks(), p0.index as int, bd, j) implies false by {}
            }
            return None;
        }
        let mut items: Vec<Item> = Vec::new();
        proof {
            crate::grammar::lemma_items_empty(p0.toks(), p0.index + 3);
            assert forall|bd: BodyDecl, j: int| #[trigger] crate::grammar::body_derives(p0.toks(), p0.index as int, bd, j) implies items@.len() <= bd.items@.len() && crate::readings::same_items(items@, bd.items@.take(items@.len() as int))
                    && crate::grammar::items_derive(p0.toks(), self.index as int, bd.items@.skip(items@.len() as int), j - 1)
                    && 0 <= j - 1 < p0.toks().len() && p0.toks()[j - 1].kind == Kind::RBrace && diagnostics@ == d0 by {
                assert(bd.items@.skip(0) =~= bd.items@);
                assert(bd.items@.take(0) =~= Seq::<Item>::empty());
            }
        }
        while !self.check(TAG_R_BRACE) && !self.check(TAG_EOF)
            invariant
                steps(p0, *self),
                p0.index < self.index,
                grows(d0, diagnostics@),
                p0 == *old(self),
                d0 == old(diagnostics)@,
                clean(d0, diagnostics@) ==> crate::grammar::items_derive(
                    p0.toks(),
                    p0.index + 3,
                    items@,
                    self.index as int,
                ),
                forall|bd: BodyDecl, j: int| #[trigger] crate::grammar::body_derives(p0.toks(), p0.index as int, bd, j) ==> items@.len() <= bd.items@.len() && crate::readings::same_items(items@, bd.items@.take(items@.len() as int))
                    && crate::grammar::items_derive(p0.toks(), self.index as int, bd.items@.skip(items@.len() as int), j - 1)
                    && 0 <= j - 1 < p0.toks().len() && p0.toks()[j - 1].kind == Kind::RBrace && diagnostics@ == d0,
            decreases self.tokens@.len() - self.index,
        {
            let ghost before = self.index as int;
            let ghost s1 = *self;
            let ghost done = items@;
            match self.parse_item(diagnostics) {
                Some(item) => {
                    proof {
                        if clean(d0, diagnostics@) {
                            let ts = p0.toks();
                            let sl = choose|sh: Shape| #[trigger] crate::grammar::item_derivation(ts, before, item, self.index as int, sh);
                            crate::grammar::lemma_items_push(ts, p0.index + 3, items@, before, item, self.index as int, sl);
                        }
                    }
                    items.push(item);
                    proof {
                        assert forall|bd: BodyDecl, j: int| #[trigger] crate::grammar::body_derives(p0.toks(), p0.index as int, bd, j) implies items@.len() <= bd.items@.len() && crate::readings::same_items(items@, bd.items@.take(items@.len() as int))
                    && crate::grammar::items_derive(p0.toks(), self.index as int, bd.items@.skip(items@.len() as int), j - 1)
                    && 0 <= j - 1 < p0.toks().len() && p0.toks()[j - 1].kind == Kind::RBrace && diagnostics@ == d0 by {
                            let rest = bd.items@.skip(done.len() as int);
                            if rest.len() == 0 {
                                crate::readings::lemma_items_front(p0.toks(), before, rest, j - 1);
                                crate::readings::lemma_items_front(p0.toks(), before, rest, j - 1);
                            }
                            let c = crate::readings::lemma_items_front(p0.toks(), before, rest, j - 1);
                            assert(crate::grammar::item_derivation(s1.toks(), s1.index as int, rest[0], c.0, c.1));
                            assert(rest[0] == bd.items@[done.len() as int]);
                            assert(bd.items@.take((done.len() + 1) as int) =~= bd.items@.take(done.len() as int).push(bd.items@[done.len() as int]));
                            crate::readings::lemma_same_items_push(done, bd.items@.take(done.len() as int), item, bd.items@[done.len() as int]);
                            assert(rest.drop_first() =~= bd.items@.skip((done.len() + 1) as int));
                        }
                    }
                },
                None => {
                    proof {
                        assert forall|bd: BodyDecl, j: int| #[trigger] crate::grammar::body_derives(p0.toks(), p0.index as int, bd, j) implies false by {
                            let rest = bd.items@.skip(done.len() as int);
                            let c = crate::readings::lemma_items_front(p0.toks(), before, rest, j - 1);
                            if rest.len() > 0 {
                                assert(crate::grammar::item_derivation(s1.toks(), s1.index as int, rest[0], c.0, c.1));
                            }
                        }
                    }
                    self.synchronize_item();
                },
            }
            assert(before < self.index);
        }
        proof {
            assert forall|bd: BodyDecl, j: int| #[trigger] crate::grammar::body_derives(p0.toks(), p0.index as int, bd, j) implies items@.len() == bd.items@.len() && self.index == j - 1 by {
                let rest = bd.items@.skip(items@.len() as int);
                let c = crate::readings::lemma_items_front(p0.toks(), self.index as int, rest, j - 1);
                if rest.len() > 0 {
                    crate::readings::lemma_item_start(p0.toks(), self.index as int, rest[0], c.0, c.1);
                }
            }
        }
        let ghost k = self.index as int;
        if self.expect(TAG_R_BRACE, "Expected '}' at the end of body", diagnostics).is_none() {
            return None;
        }
        let body = BodyDecl { name: body_name, items, span: body_token.span };
        proof {
            if clean(d0, diagnostics@) {
                let ts = p0.toks();
                assert(ts[p0.index as int].kind == Kind::Body);
                assert(ts[p0.index + 1].kind == Kind::Identifier(body.name@));
                assert(ts[p0.index + 2].kind == Kind::LBrace);
                assert(ts[k].kind == Kind::RBrace);
                assert(crate::grammar::body_derives(ts, p0.index as int, body, self.index as int));
            }
            assert forall|bd: BodyDecl, j: int| #[trigger] crate::grammar::body_derives(p0.toks(), p0.index as int, bd, j) implies crate::readings::same_body(body, bd) && self.index == j
                && diagnostics@ == d0 by {
                assert(bd.items@.take(bd.items@.len() as int) =~= bd.items@);
            }
        }
        Some(body)
    }

    fn parse_item(&mut self, diagnostics: &mut Diagnostics) -> (r: Option<Item>)
        requires
            old(self).wf(),
        ensures
            r matches Some(it) ==> (clean(old(diagnostics)@, final(diagnostics)@) ==> exists|sh: Shape|
                #[trigger] crate::grammar::item_derivation(
                    old(self).toks(),
                    old(self).index as int,
                    it,
                    final(self).index as int,
                    sh,
                )),
            steps(*old(self), *final(self)),
            grows(old(diagnostics)@, final(diagnostics)@),
            r is None ==> error_count(old(diagnostics)@) < error_count(final(diagnostics)@),
            old(self).movable() ==> old(self).index < final(self).index,
            forall|it: Item, j: int, sh: Shape|
                #[trigger] crate::grammar::item_derivation(old(self).toks(), old(self).index as int, it, j, sh) ==> (r matches Some(
                    x,
                ) && crate::readings::same_item(x, it)) && final(self).index == j && final(diagnostics)@ == old(
                    diagnostics,
                )@,
        decreases old(self).tokens@.len() - old(self).index, 38int,
    {
        let ghost p0 = *self;
        let ghost i0 = self.index as int;
        let ghost d0 = diagnostics@;
        if self.check(TAG_LET) {
            self.parse_let_item(diagnostics)
        } else if self.check(TAG_FUNC) {
            match self.parse_function_decl(None, diagnostics) {
                Some(f) => {
                    let ghost f_parsed = f;
                    let it = Item::Func(f);
                    proof {
                        if clean(old(diagnostics)@, diagnostics@) {
                            let ts = self.toks();
                            assert(old(self).toks() =~= ts);
                            let sh = choose|sh: Shape| #[trigger] crate::grammar::function(ts, i0, f, self.index as int, sh);
                            assert(ts[i0].kind == Kind::Func);
                            assert(crate::grammar::item_derivation(ts, i0, it, self.index as int, sh));
                        }
                    }
                    proof {
                        assert forall|it: Item, j: int, sh: Shape| #[trigger] crate::grammar::item_derivation(p0.toks(), i0, it, j, sh) implies crate::readings::same_item(Item::Func(f_parsed), it)
                            && self.index == j && diagnostics@ == d0 by {
                            match it {
                                Item::Func(g) => {
                                    assert(crate::grammar::function(p0.toks(), i0, g, j, sh));
                                },
                                _ => {},
                            }
                        }
                    }
                    Some(it)
                },
                None => {
                    proof {
                        assert forall|it: Item, j: int, sh: Shape| #[trigger] crate::grammar::item_derivation(p0.toks(), i0, it, j, sh) implies false by {
                            match it {
                                Item::Func(g) => {
                                    assert(crate::grammar::function(p0.toks(), i0, g, j, sh));
                                },
                                _ => {},
                            }
                        }
                    }
                    None
                },
            }
        } else {
            proof {
                assert forall|it: Item, j: int, sh: Shape| #[trigger] crate::grammar::item_derivation(p0.toks(), i0, it, j, sh) implies false by {
                    crate::readings::lemma_item_start(p0.toks(), i0, it, j, sh);
                }
            }
            let token = self.advance();
            diagnostics.error(
                Some(token.span),
                string_of("Expected let/func declaration inside body"),
            );
            None
        }
    }

    #[verifier::rlimit(100)]
    #[verifier::spinoff_prover]
    fn parse_let_item(&mut self, diagnostics: &mut Diagnostics) -> (r: Option<Item>)
        requires
            old(self).wf(),
        ensures
            r matches Some(it) ==> (clean(old(diagnostics)@, final(diagnostics)@) ==> exists|sh: Shape|
                #[trigger] crate::grammar::item_derivation(
                    old(self).toks(),
                    old(self).index as int,
                    it,
                    final(self).index as int,
                    sh,
                )),
            steps(*old(self), *final(self)),
            grows(old(diagnostics)@, final(diagnostics)@),
            r is None ==> error_count(old(diagnostics)@) < error_count(final(diagnostics)@),
            kind_tag(old(self).cur().kind) == TAG_LET ==> old(self).index < final(self).index,
            old(self).cur().kind == Kind::Let ==> forall|it: Item, j: int, sh: Shape|
                #[trigger] crate::grammar::item_derivation(old(self).toks(), old(self).index as int, it, j, sh) ==> (r matches Some(
                    x,
                ) && crate::readings::same_item(x, it)) && final(self).index == j && final(diagnostics)@ == old(
                    diagnostics,
                )@,
        decreases old(self).tokens@.len() - old(self).index, 37int,
    {
        let ghost i0 = self.index as int;
        let ghost d0 = diagnostics@;
        let ghost p0 = *self;
        let let_token = match self.expect(TAG_LET, "Expected 'let' keyword", diagnostics) {
            Some(t) => t,
            None => {
                return None;
            },
        };
        let entitlement = if self.consume_if(TAG_COLON) {
            match self.expect_identifier("Expected entitlement name after ':'", diagnostics) {
                Some(n) => Some(n),
                None => {
                    proof {
                        assert forall|it: Item, j: int, sh: Shape| #[trigger] crate::grammar::item_derivation(p0.toks(), i0, it, j, sh) implies false by {
                            reveal_strlit("capability");
                            reveal_strlit("right");
                            match (it, sh) {
                                (Item::Capability(c), Shape::Split(k, se, _)) => {
                                },
                                (Item::Right(c), Shape::Split(k, se, _)) => {
                                },
                                (Item::Var(d), Shape::Split(k, sd, _)) => {
                                    assert(crate::grammar::variable_declaration(p0.toks(), i0, d, k, *sd, true));
                                },
                                (Item::Func(f), _) => {
                                    assert(crate::grammar::let_head(p0.toks(), i0, f.right));
                                },
                                _ => {},
                            }
                        }
                    }
                    return None;
                },
            }
        } else {
            None
        };

        let ghost a = self.index as int;
        proof {
            assert(self.toks()[i0].kind == Kind::Let);
            assert(a == crate::grammar::after_let_head(self.toks(), i0));
        }
        if self.check(TAG_FUNC) {
            let ghost s_f = *self;
            proof {
                assert(s_f.toks() == p0.toks());
            }
            return match self.parse_function_decl(entitlement, diagnostics) {
                Some(f) => {
                    let ghost f_parsed = f;
                    let it = Item::Func(f);
                    proof {
                        if clean(d0, diagnostics@) {
                            let ts = self.toks();
                            assert(old(self).toks() =~= ts);
                            let sh = choose|sh: Shape| #[trigger] crate::grammar::function(ts, a, f, self.index as int, sh);
                            assert(ts[i0].kind != Kind::Func);
                            assert(crate::grammar::let_head(ts, i0, f.right));
                            assert(crate::grammar::item_derivation(ts, i0, it, self.index as int, sh));
                        }
                    }
                    proof {
                        assert forall|it: Item, j: int, sh: Shape| #[trigger] crate::grammar::item_derivation(p0.toks(), i0, it, j, sh) implies crate::readings::same_item(Item::Func(f_parsed), it) && self.index == j && diagnostics@ == d0 by {
                            reveal_strlit("capability");
                            reveal_strlit("right");
                            match (it, sh) {
                                (Item::Capability(c), Shape::Split(k, se, _)) => {
                                },
                                (Item::Right(c), Shape::Split(k, se, _)) => {
                                },
                                (Item::Var(d), Shape::Split(k, sd, _)) => {
                                    assert(crate::grammar::variable_declaration(p0.toks(), i0, d, k, *sd, true));
                                },
                                (Item::Func(f), _) => {
                                    assert(crate::grammar::let_head(p0.toks(), i0, f.right));
                                    assert(crate::grammar::function(s_f.toks(), s_f.index as int, f, j, sh));
                                },
                                _ => {},
                            }
                        }
                    }
                    Some(it)
                },
                None => {
                    proof {
                        assert forall|it: Item, j: int, sh: Shape| #[trigger] crate::grammar::item_derivation(p0.toks(), i0, it, j, sh) implies false by {
                            reveal_strlit("capability");
                            reveal_strlit("right");
                            match (it, sh) {
                                (Item::Capability(c), Shape::Split(k, se, _)) => {
                                },
                                (Item::Right(c), Shape::Split(k, se, _)) => {
                                },
                                (Item::Var(d), Shape::Split(k, sd, _)) => {
                                    assert(crate::grammar::variable_declaration(p0.toks(), i0, d, k, *sd, true));
                                },
                                (Item::Func(f), _) => {
                                    assert(crate::grammar::let_head(p0.toks(), i0, f.right));
                                    assert(crate::grammar::function(s_f.toks(), s_f.index as int, f, j, sh));
                                },
                                _ => {},
                            }
                        }
                    }
                    None
                },
            };
        }

        if entitlement.is_none() && self.check_identifier_text("capability") {
            proof {
                assert(self.index == i0 + 1);
                assert(self.toks()[i0 + 1] == self.cur());
                assert(p0.toks() == self.toks());
                assert(p0.toks()[i0 + 1].kind == Kind::Identifier("capability"@));
            }
            self.advance();
            let name = match self.expect_identifier("Expected capability name", diagnostics) {
                Some(n) => n,
                None => {
                    proof {
                        assert forall|it: Item, j: int, sh: Shape| #[trigger] crate::grammar::item_derivation(p0.toks(), i0, it, j, sh) implies false by {
                            reveal_strlit("capability");
                            reveal_strlit("right");
                            assert(p0.toks()[i0 + 1].kind == Kind::Identifier("capability"@)); assert("capability"@.len() == 10); assert("right"@.len() == 5);
                            match (it, sh) {
                                (Item::Capability(c), Shape::Split(k, se, _)) => {
                                },
                                (Item::Right(c), Shape::Split(k, se, _)) => {
                                },
                                (Item::Var(d), Shape::Split(k, sd, _)) => {
                                    assert(crate::grammar::variable_declaration(p0.toks(), i0, d, k, *sd, true));
                                },
                                (Item::Func(f), _) => {
                                    assert(crate::grammar::let_head(p0.toks(), i0, f.right));
                                },
                                _ => {},
                            }
                        }
                    }
                    return None;
                },
            };
            if self.expect(TAG_ASSIGN, "Expected '=' after capability name", diagnostics).is_none() {
                proof {
                    assert forall|it: Item, j: int, sh: Shape| #[trigger] crate::grammar::item_derivation(p0.toks(), i0, it, j, sh) implies false by {
                        reveal_strlit("capability");
                        reveal_strlit("right");
                        assert(p0.toks()[i0 + 1].kind == Kind::Identifier("capability"@)); assert("capability"@.len() == 10); assert("right"@.len() == 5);
                        match (it, sh) {
                            (Item::Capability(c), Shape::Split(k, se, _)) => {
                            },
                            (Item::Right(c), Shape::Split(k, se, _)) => {
                            },
                            (Item::Var(d), Shape::Split(k, sd, _)) => {
                                assert(crate::grammar::variable_declaration(p0.toks(), i0, d, k, *sd, true));
                            },
                            (Item::Func(f), _) => {
                                assert(crate::grammar::let_head(p0.toks(), i0, f.right));
                            },
                            _ => {},
                        }
                    }
                }
                return None;
            }
            let ghost s_e = *self;
            proof {
                assert(s_e.toks() == p0.toks());
            }
            let initializer = match self.parse_expression(diagnostics) {
                Some(e) => e,
                None => {
                    proof {
                        assert forall|it: Item, j: int, sh: Shape| #[trigger] crate::grammar::item_derivation(p0.toks(), i0, it, j, sh) implies false by {
                            reveal_strlit("capability");
                            reveal_strlit("right");
                            assert(p0.toks()[i0 + 1].kind == Kind::Identifier("capability"@)); assert("capability"@.len() == 10); assert("right"@.len() == 5);
                            match (it, sh) {
                                (Item::Capability(c), Shape::Split(k, se, _)) => {
                                    assert(s_e.index == i0 + 4); assert(reading(s_e.toks(), 0, s_e.index as int, c.initializer, k));
                                },
                                (Item::Right(c), Shape::Split(k, se, _)) => {
                                },
                                (Item::Var(d), Shape::Split(k, sd, _)) => {
                                    assert(crate::grammar::variable_declaration(p0.toks(), i0, d, k, *sd, true));
                                },
                                (Item::Func(f), _) => {
                                    assert(crate::grammar::let_head(p0.toks(), i0, f.right));
                                },
                                _ => {},
                            }
                        }
                    }
                    return None;
                },
            };
            let ghost k = self.index as int;
            self.consume_if(TAG_SEMICOLON);
            let it = Item::Capability(CapabilityDecl { name, initializer, span: let_token.span });
            let ghost it_parsed = it;
            proof {
                let ts = self.toks();
                assert(old(self).toks() =~= ts);
                assert(ts[i0 + 1].kind == Kind::Identifier("capability"@));
                assert(ts[i0 + 3].kind == Kind::Assign);
                let se = choose|sh: Shape| #[trigger] derivation(ts, 0, i0 + 4, initializer, k, sh);
                assert(crate::grammar::item_derivation(ts, i0, it, self.index as int, Shape::Split(k, Box::new(se), Box::new(Shape::Leaf))));
            }
            proof {
                assert forall|it: Item, j: int, sh: Shape| #[trigger] crate::grammar::item_derivation(p0.toks(), i0, it, j, sh) implies crate::readings::same_item(it_parsed, it) && self.index == j && diagnostics@ == d0 by {
                    reveal_strlit("capability");
                    reveal_strlit("right");
                    assert(p0.toks()[i0 + 1].kind == Kind::Identifier("capability"@)); assert("capability"@.len() == 10); assert("right"@.len() == 5);
                    match (it, sh) {
                        (Item::Capability(c), Shape::Split(k, se, _)) => {
                            assert(s_e.index == i0 + 4); assert(reading(s_e.toks(), 0, s_e.index as int, c.initializer, k));
                        },
                        (Item::Right(c), Shape::Split(k, se, _)) => {
                        },
                        (Item::Var(d), Shape::Split(k, sd, _)) => {
                            assert(crate::grammar::variable_declaration(p0.toks(), i0, d, k, *sd, true));
                        },
                        (Item::Func(f), _) => {
                            assert(crate::grammar::let_head(p0.toks(), i0, f.right));
                        },
                        _ => {},
                    }
                }
            }
            return Some(it);
        }

        if entitlement.is_none() && self.check_identifier_text("right") {
            proof {
                assert(self.index == i0 + 1);
                assert(self.toks()[i0 + 1] == self.cur());
                assert(p0.toks() == self.toks());
                assert(p0.toks()[i0 + 1].kind == Kind::Identifier("right"@));
            }
            self.advance();
            let name = match self.expect_identifier("Expected right name", diagnostics) {
                Some(n) => n,
                None => {
                    proof {
                        assert forall|it: Item, j: int, sh: Shape| #[trigger] crate::grammar::item_derivation(p0.toks(), i0, it, j, sh) implies false by {
                            reveal_strlit("capability");
                            reveal_strlit("right");
                            assert(p0.toks()[i0 + 1].kind == Kind::Identifier("right"@)); assert("capability"@.len() == 10); assert("right"@.len() == 5);
                            match (it, sh) {
                                (Item::Capability(c), Shape::Split(k, se, _)) => {
                                },
                                (Item::Right(c), Shape::Split(k, se, _)) => {
                                },
                                (Item::Var(d), Shape::Split(k, sd, _)) => {
                                    assert(crate::grammar::variable_declaration(p0.toks(), i0, d, k, *sd, true));
                                },
                                (Item::Func(f), _) => {
                                    assert(crate::grammar::let_head(p0.toks(), i0, f.right));
                                },
                                _ => {},
                            }
                        }
                    }
                    return None;
                },
            };
            if self.expect(TAG_ASSIGN, "Expected '=' after right name", diagnostics).is_none() {
                proof {
                    assert forall|it: Item, j: int, sh: Shape| #[trigger] crate::grammar::item_derivation(p0.toks(), i0, it, j, sh) implies false by {
                        reveal_strlit("capability");
                        reveal_strlit("right");
                        assert(p0.toks()[i0 + 1].kind == Kind::Identifier("right"@)); assert("capability"@.len() == 10); assert("right"@.len() == 5);
                        match (it, sh) {
                            (Item::Capability(c), Shape::Split(k, se, _)) => {
                            },
                            (Item::Right(c), Shape::Split(k, se, _)) => {
                            },
                            (Item::Var(d), Shape::Split(k, sd, _)) => {
                                assert(crate::grammar::variable_declaration(p0.toks(), i0, d, k, *sd, true));
                            },
                            (Item::Func(f), _) => {
                                assert(crate::grammar::let_head(p0.toks(), i0, f.right));
                            },
                            _ => {},
                        }
                    }
                }
                return None;
            }
            let ghost s_e = *self;
            proof {
                assert(s_e.toks() == p0.toks());
            }
            let initializer = match self.parse_expression(diagnostics) {
                Some(e) => e,
                None => {
                    proof {
                        assert forall|it: Item, j: int, sh: Shape| #[trigger] crate::grammar::item_derivation(p0.toks(), i0, it, j, sh) implies false by {
                            reveal_strlit("capability");
                            reveal_strlit("right");
                            assert(p0.toks()[i0 + 1].kind == Kind::Identifier("right"@)); assert("capability"@.len() == 10); assert("right"@.len() == 5);
                            match (it, sh) {
                                (Item::Capability(c), Shape::Split(k, se, _)) => {
                                },
                                (Item::Right(c), Shape::Split(k, se, _)) => {
                                    assert(s_e.index == i0 + 4); assert(reading(s_e.toks(), 0, s_e.index as int, c.initializer, k));
                                },
                                (Item::Var(d), Shape::Split(k, sd, _)) => {
                                    assert(crate::grammar::variable_declaration(p0.toks(), i0, d, k, *sd, true));
                                },
                                (Item::Func(f), _) => {
                                    assert(crate::grammar::let_head(p0.toks(), i0, f.right));
                                },
                                _ => {},
                            }
                        }
                    }
                    return None;
                },
            };
            let ghost k = self.index as int;
            self.consume_if(TAG_SEMICOLON);
            let it = Item::Right(RightDecl { name, initializer, span: let_token.span });
            let ghost it_parsed = it;
            proof {
                let ts = self.toks();
                assert(old(self).toks() =~= ts);
                assert(ts[i0 + 1].kind == Kind::Identifier("right"@));
                assert(ts[i0 + 3].kind == Kind::Assign);
                let se = choose|sh: Shape| #[trigger] derivation(ts, 0, i0 + 4, initializer, k, sh);
                assert(crate::grammar::item_derivation(ts, i0, it, self.index as int, Shape::Split(k, Box::new(se), Box::new(Shape::Leaf))));
            }
            proof {
                assert forall|it: Item, j: int, sh: Shape| #[trigger] crate::grammar::item_derivation(p0.toks(), i0, it, j, sh) implies crate::readings::same_item(it_parsed, it) && self.index == j && diagnostics@ == d0 by {
                    reveal_strlit("capability");
                    reveal_strlit("right");
                    assert(p0.toks()[i0 + 1].kind == Kind::Identifier("right"@)); assert("capability"@.len() == 10); assert("right"@.len() == 5);
                    match (it, sh) {
                        (Item::Capability(c), Shape::Split(k, se, _)) => {
                        },
                        (Item::Right(c), Shape::Split(k, se, _)) => {
                            assert(s_e.index == i0 + 4); assert(reading(s_e.toks(), 0, s_e.index as int, c.initializer, k));
                        },
                        (Item::Var(d), Shape::Split(k, sd, _)) => {
                            assert(crate::grammar::variable_declaration(p0.toks(), i0, d, k, *sd, true));
                        },
                        (Item::Func(f), _) => {
                            assert(crate::grammar::let_head(p0.toks(), i0, f.right));
                        },
                        _ => {},
                    }
                }
            }
            return Some(it);
        }

        proof {
            assert(self.toks()[a].kind != Kind::Func);
        }
        let ghost s_v = *self;
        let ghost ent = entitlement;
        proof {
            assert(s_v.toks() == p0.toks());
        }
        match self.parse_variable_decl_from_current(let_token.span, entitlement, diagnostics) {
            Some(d) => {
                let it = Item::Var(d);
                let ghost it_parsed = it;
                proof {
                    if clean(d0, diagnostics@) {
                        let ts = self.toks();
                        assert(old(self).toks() =~= ts);
                        let (k, sd) = choose|k: int, sh: Shape| #[trigger] declares(ts, a, d, k, sh) && k < ts.len() && self.index == ends(ts, k);
                        assert(crate::grammar::variable_declaration(ts, i0, d, k, sd, true));
                        assert(crate::grammar::item_derivation(ts, i0, it, self.index as int, Shape::Split(k, Box::new(sd), Box::new(Shape::Leaf))));
                    }
                }
                proof {
                    assert forall|it: Item, j: int, sh: Shape| #[trigger] crate::grammar::item_derivation(p0.toks(), i0, it, j, sh) implies crate::readings::same_item(it_parsed, it) && self.index == j && diagnostics@ == d0 by {
                        reveal_strlit("capability");
                        reveal_strlit("right");
                        match (it, sh) {
                            (Item::Capability(c), Shape::Split(k, se, _)) => {
                            },
                            (Item::Right(c), Shape::Split(k, se, _)) => {
                            },
                            (Item::Var(d), Shape::Split(k, sd, _)) => {
                                assert(crate::grammar::variable_declaration(p0.toks(), i0, d, k, *sd, true));
                                assert(declares(s_v.toks(), s_v.index as int, d, k, *sd));
                            },
                            (Item::Func(f), _) => {
                                assert(crate::grammar::let_head(p0.toks(), i0, f.right));
                            },
                            _ => {},
                        }
                    }
                }
                Some(it)
            },
            None => {
                proof {
                    assert forall|it: Item, j: int, sh: Shape| #[trigger] crate::grammar::item_derivation(p0.toks(), i0, it, j, sh) implies false by {
                        reveal_strlit("capability");
                        reveal_strlit("right");
                        match (it, sh) {
                            (Item::Capability(c), Shape::Split(k, se, _)) => {
                            },
                            (Item::Right(c), Shape::Split(k, se, _)) => {
                            },
                            (Item::Var(d), Shape::Split(k, sd, _)) => {
                                assert(crate::grammar::variable_declaration(p0.toks(), i0, d, k, *sd, true));
                                assert(declares(s_v.toks(), s_v.index as int, d, k, *sd));
                            },
                            (Item::Func(f), _) => {
                                assert(crate::grammar::let_head(p0.toks(), i0, f.right));
                            },
                            _ => {},
                        }
                    }
                }
                None
            },
        }
    }

    #[verifier::rlimit(60)]
    #[verifier::spinoff_prover]
    fn parse_function_decl(&mut self, right: Option<String>, diagnostics: &mut Diagnostics) -> (r:
        Option<FuncDecl>)
        requires
            old(self).wf(),
        ensures
            r matches Some(f) ==> f.right == right,
            r matches Some(f) ==> (clean(old(diagnostics)@, final(diagnostics)@) ==> exists|sh: Shape|
                #[trigger] crate::grammar::function(
                    old(self).toks(),
                    old(self).index as int,
                    f,
                    final(self).index as int,
                    sh,
                )),
            steps(*old(self), *final(self)),
            grows(old(diagnostics)@, final(diagnostics)@),
            r is None ==> error_count(old(diagnostics)@) < error_count(final(diagnostics)@),
            kind_tag(old(self).cur().kind) == TAG_FUNC ==> old(self).index < final(self).index,
            forall|f: FuncDecl, j: int, sh: Shape|
                #[trigger] crate::grammar::function(old(self).toks(), old(self).index as int, f, j, sh) ==> (r matches Some(
                    x,
                ) && x.name@ == f.name@ && crate::readings::same_param_list(x.params@, f.params@)
                    && x.return_type == f.return_type && same_stmts(x.body@, f.body@) && x.span == f.span)
                    && final(self).index == j && final(diagnostics)@ == old(diagnostics)@,
        decreases old(self).tokens@.len() - old(self).index, 36int,
    {
        let ghost i0 = self.index as int;
        let ghost d0 = diagnostics@;
        let ghost p0 = *self;
        let func_token = match self.expect(TAG_FUNC, "Expected 'func' keyword", diagnostics) {
            Some(t) => t,
            None => {
                proof {
                    assert forall|f: FuncDecl, j: int, sh: Shape| #[trigger] crate::grammar::function(p0.toks(), i0, f, j, sh) implies false by {
                        let q = choose|q: int| #[trigger] crate::grammar::parameters(p0.toks(), i0 + 3, f.params@, q) && q < p0.toks().len() && if p0.toks()[q].kind == Kind::Arrow {
                            spells_type(p0.toks(), q + 1, f.return_type) && crate::grammar::block(p0.toks(), q + 1 + type_width(f.return_type), f.body@, j, sh)
                        } else {
                            f.return_type == ValueType::Void && crate::grammar::block(p0.toks(), q, f.body@, j, sh)
                        };
                    }
                }
                return None;
            },
        };
        let name = match self.expect_identifier("Expected function name", diagnostics) {
            Some(n) => n,
            None => {
                proof {
                    assert forall|f: FuncDecl, j: int, sh: Shape| #[trigger] crate::grammar::function(p0.toks(), i0, f, j, sh) implies false by {
                        let q = choose|q: int| #[trigger] crate::grammar::parameters(p0.toks(), i0 + 3, f.params@, q) && q < p0.toks().len() && if p0.toks()[q].kind == Kind::Arrow {
                            spells_type(p0.toks(), q + 1, f.return_type) && crate::grammar::block(p0.toks(), q + 1 + type_width(f.return_type), f.body@, j, sh)
                        } else {
                            f.return_type == ValueType::Void && crate::grammar::block(p0.toks(), q, f.body@, j, sh)
                        };
                    }
                }
                return None;
            },
        };
        if self.expect(TAG_L_PAREN, "Expected '(' after function name", diagnostics).is_none() {
            proof {
                assert forall|f: FuncDecl, j: int, sh: Shape| #[trigger] crate::grammar::function(p0.toks(), i0, f, j, sh) implies false by {
                    let q = choose|q: int| #[trigger] crate::grammar::parameters(p0.toks(), i0 + 3, f.params@, q) && q < p0.toks().len() && if p0.toks()[q].kind == Kind::Arrow {
                        spells_type(p0.toks(), q + 1, f.return_type) && crate::grammar::block(p0.toks(), q + 1 + type_width(f.return_type), f.body@, j, sh)
                    } else {
                        f.return_type == ValueType::Void && crate::grammar::block(p0.toks(), q, f.body@, j, sh)
                    };
                }
            }
            return None;
        }
        let ghost s_p = *self;
        proof {
            assert(s_p.toks() == p0.toks());
        }
        let params = match self.parse_function_parameters(diagnostics) {
            Some(p) => p,
            None => {
                proof {
                    assert forall|f: FuncDecl, j: int, sh: Shape| #[trigger] crate::grammar::function(p0.toks(), i0, f, j, sh) implies false by {
                        let q = choose|q: int| #[trigger] crate::grammar::parameters(p0.toks(), i0 + 3, f.params@, q) && q < p0.toks().len() && if p0.toks()[q].kind == Kind::Arrow {
                            spells_type(p0.toks(), q + 1, f.return_type) && crate::grammar::block(p0.toks(), q + 1 + type_width(f.return_type), f.body@, j, sh)
                        } else {
                            f.return_type == ValueType::Void && crate::grammar::block(p0.toks(), q, f.body@, j, sh)
                        };
                        assert(crate::grammar::parameters(s_p.toks(), s_p.index as int, f.params@, q));
                    }
                }
                return None;
            },
        };
        let ghost q = self.index as int;
        let ghost mut s_t = *self;
        let return_type = if self.consume_if(TAG_ARROW) {
            proof {
                s_t = *self;
                assert(s_t.toks() == p0.toks());
            }
            match self.parse_type_annotation(diagnostics) {
                Some(t) => t,
                None => {
                    proof {
                        assert forall|f: FuncDecl, j: int, sh: Shape| #[trigger] crate::grammar::function(p0.toks(), i0, f, j, sh) implies false by {
                            let q = choose|q: int| #[trigger] crate::grammar::parameters(p0.toks(), i0 + 3, f.params@, q) && q < p0.toks().len() && if p0.toks()[q].kind == Kind::Arrow {
                                spells_type(p0.toks(), q + 1, f.return_type) && crate::grammar::block(p0.toks(), q + 1 + type_width(f.return_type), f.body@, j, sh)
                            } else {
                                f.return_type == ValueType::Void && crate::grammar::block(p0.toks(), q, f.body@, j, sh)
                            };
                            assert(crate::grammar::parameters(s_p.toks(), s_p.index as int, f.params@, q));
                            if p0.toks()[q].kind == Kind::Arrow { assert(crate::grammar::annotation(s_t.toks(), q + 1, Some(f.return_type))); }
                        }
                    }
                    let span = self.current_span();
                    diagnostics.error(Some(span), string_of("Expected return type after '->'"));
                    return None;
                },
            }
        } else {
            ValueType::Void
        };
        let ghost r0 = self.index as int;
        let ghost s_b = *self;
        proof {
            assert(s_b.toks() == p0.toks());
        }
        let body = match self.parse_block_statements(diagnostics) {
            Some(b) => b,
            None => {
                proof {
                    assert forall|f: FuncDecl, j: int, sh: Shape| #[trigger] crate::grammar::function(p0.toks(), i0, f, j, sh) implies false by {
                        let q = choose|q: int| #[trigger] crate::grammar::parameters(p0.toks(), i0 + 3, f.params@, q) && q < p0.toks().len() && if p0.toks()[q].kind == Kind::Arrow {
                            spells_type(p0.toks(), q + 1, f.return_type) && crate::grammar::block(p0.toks(), q + 1 + type_width(f.return_type), f.body@, j, sh)
                        } else {
                            f.return_type == ValueType::Void && crate::grammar::block(p0.toks(), q, f.body@, j, sh)
                        };
                        assert(crate::grammar::parameters(s_p.toks(), s_p.index as int, f.params@, q));
                        if p0.toks()[q].kind == Kind::Arrow { assert(crate::grammar::annotation(s_t.toks(), q + 1, Some(f.return_type))); }
                        let r1 = if p0.toks()[q].kind == Kind::Arrow { q + 1 + type_width(f.return_type) } else { q }; assert(crate::grammar::block(s_b.toks(), r1, f.body@, j, sh)); assert(crate::grammar::block_derives(s_b.toks(), r1, f.body@, j));
                    }
                }
                return None;
            },
        };
        let decl = FuncDecl { name, params, return_type, right, body, span: func_token.span };
        proof {
            if clean(d0, diagnostics@) {
                let ts = self.toks();
                assert(old(self).toks() =~= ts);
                assert(ts[i0].kind == Kind::Func);
                assert(ts[i0 + 1].kind == Kind::Identifier(decl.name@));
                assert(ts[i0 + 2].kind == Kind::LParen);
                let sh = choose|sh: Shape| #[trigger] crate::grammar::block(ts, r0, decl.body@, self.index as int, sh);
                if ts[q].kind == Kind::Arrow {
                    assert(r0 == q + 1 + type_width(decl.return_type));
                } else {
                    assert(r0 == q);
                }
                assert(crate::grammar::parameters(ts, i0 + 3, decl.params@, q));
                assert(crate::grammar::block(ts, r0, decl.body@, self.index as int, sh));
                assert(crate::grammar::function(ts, i0, decl, self.index as int, sh));
            }
            assert forall|f: FuncDecl, j: int, sh: Shape| #[trigger] crate::grammar::function(p0.toks(), i0, f, j, sh) implies decl.name@ == f.name@
                && crate::readings::same_param_list(decl.params@, f.params@) && decl.return_type == f.return_type
                && same_stmts(decl.body@, f.body@) && decl.span == f.span && self.index == j && diagnostics@ == d0 by {
                let q = choose|q: int| #[trigger] crate::grammar::parameters(p0.toks(), i0 + 3, f.params@, q) && q < p0.toks().len() && if p0.toks()[q].kind == Kind::Arrow {
                    spells_type(p0.toks(), q + 1, f.return_type) && crate::grammar::block(p0.toks(), q + 1 + type_width(f.return_type), f.body@, j, sh)
                } else {
                    f.return_type == ValueType::Void && crate::grammar::block(p0.toks(), q, f.body@, j, sh)
                };
                assert(crate::grammar::parameters(s_p.toks(), s_p.index as int, f.params@, q));
                if p0.toks()[q].kind == Kind::Arrow { assert(crate::grammar::annotation(s_t.toks(), q + 1, Some(f.return_type))); }
                let r1 = if p0.toks()[q].kind == Kind::Arrow { q + 1 + type_width(f.return_type) } else { q }; assert(crate::grammar::block(s_b.toks(), r1, f.body@, j, sh)); assert(crate::grammar::block_derives(s_b.toks(), r1, f.body@, j));
            }
        }
        Some(decl)
    }

    #[verifier::rlimit(100)]
    #[verifier::spinoff_prover]
    fn parse_function_parameters(&mut self, diagnostics: &mut Diagnostics) -> (r: Option<
        Vec<FuncParam>,
    >)
        requires
            old(self).wf(),
        ensures
            r matches Some(ps) ==> (clean(old(diagnostics)@, final(diagnostics)@) ==> crate::grammar::parameters(
                old(self).toks(),
                old(self).index as int,
                ps@,
                final(self).index as int,
            )),
            steps(*old(self), *final(self)),
            grows(old(diagnostics)@, final(diagnostics)@),
            r is None ==> error_count(old(diagnostics)@) < error_count(final(diagnostics)@),
            forall|ps: Seq<FuncParam>, q: int|
                #[trigger] crate::grammar::parameters(old(self).toks(), old(self).index as int, ps, q) ==> (r matches Some(
                    x,
                ) && crate::readings::same_param_list(x@, ps)) && final(self).index == q && final(diagnostics)@
                    == old(diagnostics)@,
    {
        let ghost p0 = *self;
        let ghost d0 = diagnostics@;
        let mut params: Vec<FuncParam> = Vec::new();
        if self.consume_if(TAG_R_PAREN) {
            proof {
                assert(params@ =~= Seq::<FuncParam>::empty());
                assert forall|ps: Seq<FuncParam>, q: int| #[trigger] crate::grammar::parameters(p0.toks(), p0.index as int, ps, q) implies crate::readings::same_param_list(params@, ps)
                    && self.index == q && diagnostics@ == d0 by {
                    if ps.len() > 0 {
                        crate::readings::lemma_params_front(p0.toks(), p0.index as int, ps, q - 1);
                    }
                }
            }
            return Some(params);
        }
        proof {
            assert forall|ps: Seq<FuncParam>, q: int| #[trigger] crate::grammar::parameters(p0.toks(), p0.index as int, ps, q) implies params@.len() < ps.len() && crate::readings::same_param_list(params@, ps.take(params@.len() as int))
                    && crate::grammar::param_sequence(p0.toks(), self.index as int, ps.skip(params@.len() as int), q - 1)
                    && 0 <= q - 1 < p0.toks().len() && p0.toks()[q - 1].kind == Kind::RParen && diagnostics@ == d0 by {
                if ps.len() > 0 {
                    crate::readings::lemma_params_front(p0.toks(), p0.index as int, ps, q - 1);
                }
                assert(ps.skip(0) =~= ps);
                assert(ps.take(0) =~= Seq::<FuncParam>::empty());
            }
        }
        loop
            invariant_except_break
                clean(d0, diagnostics@) ==> (params@.len() == 0 ==> self.index == p0.index),
                clean(d0, diagnostics@) ==> (params@.len() > 0 ==> crate::grammar::param_sequence(
                    p0.toks(),
                    p0.index as int,
                    params@,
                    self.index - 1,
                ) && p0.toks()[self.index - 1].kind == Kind::Comma),
                forall|ps: Seq<FuncParam>, q: int| #[trigger] crate::grammar::parameters(p0.toks(), p0.index as int, ps, q) ==> params@.len() < ps.len() && crate::readings::same_param_list(params@, ps.take(params@.len() as int))
                    && crate::grammar::param_sequence(p0.toks(), self.index as int, ps.skip(params@.len() as int), q - 1)
                    && 0 <= q - 1 < p0.toks().len() && p0.toks()[q - 1].kind == Kind::RParen && diagnostics@ == d0,
            invariant
                steps(p0, *self),
                grows(d0, diagnostics@),
                p0 == *old(self),
                d0 == old(diagnostics)@,
            ensures
                clean(d0, diagnostics@) ==> crate::grammar::parameters(
                    p0.toks(),
                    p0.index as int,
                    params@,
                    self.index as int,
                ),
                forall|ps: Seq<FuncParam>, q: int| #[trigger] crate::grammar::parameters(p0.toks(), p0.index as int, ps, q) ==> crate::readings::same_param_list(params@, ps)
                    && self.index == q && diagnostics@ == d0,
            decreases self.tokens@.len() - self.index,
        {
            let ghost s0 = self.index as int;
            let ghost before = params@;
            let param_span = self.current_span();
            let param_name = match self.expect_identifier("Expected parameter name", diagnostics) {
                Some(n) => n,
                None => {
                    proof {
                        assert forall|ps: Seq<FuncParam>, q: int| #[trigger] crate::grammar::parameters(p0.toks(), p0.index as int, ps, q) implies false by {
                            let rest = ps.skip(before.len() as int);
                            crate::readings::lemma_params_front(p0.toks(), s0, rest, q - 1);
                        }
                    }
                    return None;
                },
            };
            if self.expect(TAG_COLON, "Expected ':' after parameter name", diagnostics).is_none() {
                proof {
                    assert forall|ps: Seq<FuncParam>, q: int| #[trigger] crate::grammar::parameters(p0.toks(), p0.index as int, ps, q) implies false by {
                        let rest = ps.skip(before.len() as int);
                        crate::readings::lemma_params_front(p0.toks(), s0, rest, q - 1);
                    }
                }
                return None;
            }
            let ghost st = *self;
            proof {
                assert(st.toks() == p0.toks());
            }
            let param_type = match self.parse_type_annotation(diagnostics) {
                Some(t) => t,
                None => {
                    proof {
                        assert forall|ps: Seq<FuncParam>, q: int| #[trigger] crate::grammar::parameters(p0.toks(), p0.index as int, ps, q) implies false by {
                            let rest = ps.skip(before.len() as int);
                            crate::readings::lemma_params_front(p0.toks(), s0, rest, q - 1);
                            assert(crate::grammar::annotation(st.toks(), st.index as int, Some(rest[0].ty)));
                        }
                    }
                    let span = self.current_span();
                    diagnostics.error(
                        Some(span),
                        string_of("Expected parameter type in function signature"),
                    );
                    return None;
                },
            };
            let param = FuncParam { name: param_name, ty: param_type, span: param_span };
            let ghost e = self.index as int;
            proof {
                if clean(d0, diagnostics@) {
                    let ts = p0.toks();
                    assert(ts[s0 + 1].kind == Kind::Colon);
                    assert(crate::grammar::param_at(ts, s0, param));
                    if before.len() > 0 {
                        crate::grammar::lemma_params_push(ts, p0.index as int, before, s0 - 1, param);
                    } else {
                        assert(before.push(param) =~= seq![param]);
                    }
                }
            }
            params.push(param);
            proof {
                assert forall|ps: Seq<FuncParam>, q: int| #[trigger] crate::grammar::parameters(p0.toks(), p0.index as int, ps, q) implies crate::readings::same_param_list(
                    params@,
                    ps.take(params@.len() as int),
                ) && self.index == s0 + crate::grammar::param_width(ps[before.len() as int]) && diagnostics@ == d0 by {
                    let rest = ps.skip(before.len() as int);
                    crate::readings::lemma_params_front(p0.toks(), s0, rest, q - 1);
                    assert(crate::grammar::annotation(st.toks(), st.index as int, Some(rest[0].ty)));
                    assert(rest[0] == ps[before.len() as int]);
                    assert(ps.take(params@.len() as int) =~= ps.take(before.len() as int).push(ps[before.len() as int]));
                    assert(params@ == before.push(param));
                    assert forall|i: int| 0 <= i < params@.len() implies (#[trigger] params@[i]).name@ == ps.take(params@.len() as int)[i].name@
                        && params@[i].ty == ps.take(params@.len() as int)[i].ty && params@[i].span == ps.take(params@.len() as int)[i].span by {
                        if i < before.len() {
                            assert(ps.take(params@.len() as int)[i] == ps.take(before.len() as int)[i]);
                        }
                    }
                }
            }
            if self.consume_if(TAG_COMMA) {
                proof {
                    assert forall|ps: Seq<FuncParam>, q: int| #[trigger] crate::grammar::parameters(p0.toks(), p0.index as int, ps, q) implies params@.len() < ps.len() && crate::readings::same_param_list(params@, ps.take(params@.len() as int))
                    && crate::grammar::param_sequence(p0.toks(), self.index as int, ps.skip(params@.len() as int), q - 1)
                    && 0 <= q - 1 < p0.toks().len() && p0.toks()[q - 1].kind == Kind::RParen && diagnostics@ == d0 by {
                        let rest = ps.skip(before.len() as int);
                        crate::readings::lemma_params_front(p0.toks(), s0, rest, q - 1);
                        assert(crate::grammar::annotation(st.toks(), st.index as int, Some(rest[0].ty)));
                        assert(rest.drop_first() =~= ps.skip(params@.len() as int));
                    }
                }
                continue;
            }
            if self.expect(TAG_R_PAREN, "Expected ')' after function parameters", diagnostics).is_none() {
                proof {
                    assert forall|ps: Seq<FuncParam>, q: int| #[trigger] crate::grammar::parameters(p0.toks(), p0.index as int, ps, q) implies false by {
                        let rest = ps.skip(before.len() as int);
                        crate::readings::lemma_params_front(p0.toks(), s0, rest, q - 1);
                        assert(crate::grammar::annotation(st.toks(), st.index as int, Some(rest[0].ty)));
                    }
                }
                return None;
            }
            proof {
                assert(p0.toks()[e].kind == Kind::RParen);
                assert forall|ps: Seq<FuncParam>, q: int| #[trigger] crate::grammar::parameters(p0.toks(), p0.index as int, ps, q) implies crate::readings::same_param_list(params@, ps)
                    && self.index == q && diagnostics@ == d0 by {
                    let rest = ps.skip(before.len() as int);
                    crate::readings::lemma_params_front(p0.toks(), s0, rest, q - 1);
                    assert(crate::grammar::annotation(st.toks(), st.index as int, Some(rest[0].ty)));
                    assert(ps.take(params@.len() as int) =~= ps);
                }
            }
            break;
        }
        Some(params)
    }

    fn parse_block_statements(&mut self, diagnostics: &mut Diagnostics) -> (r: Option<Vec<Stmt>>)
        requires
            old(self).wf(),
        ensures
            r matches Some(b) ==> (clean(old(diagnostics)@, final(diagnostics)@) ==> crate::grammar::block_derives(
                old(self).toks(),
                old(self).index as int,
                b@,
                final(self).index as int,
            )),
            steps(*old(self), *final(self)),
            grows(old(diagnostics)@, final(diagnostics)@),
            r is None ==> error_count(old(diagnostics)@) < error_count(final(diagnostics)@),
            kind_tag(old(self).cur().kind) == TAG_L_BRACE ==> old(self).index < final(self).index,
            forall|stmts: Seq<Stmt>, j: int|
                #[trigger] crate::grammar::block_derives(old(self).toks(), old(self).index as int, stmts, j) ==> (r matches Some(
                    x,
                ) && same_stmts(x@, stmts)) && final(self).index == j && final(diagnostics)@ == old(diagnostics)@,
        decreases old(self).tokens@.len() - old(self).index, 10int,
    {
        let ghost p0 = *self;
        let ghost d0 = diagnostics@;
        if self.expect(TAG_L_BRACE, "Expected '{'", diagnostics).is_none() {
            proof {
                assert forall|stmts: Seq<Stmt>, j: int| #[trigger] crate::grammar::block_derives(p0.toks(), p0.index as int, stmts, j) implies false by {
                    let sh = choose|sh: Shape| #[trigger] crate::grammar::block(p0.toks(), p0.index as int, stmts, j, sh);
                }
            }
            return None;
        }
        let mut statements: Vec<Stmt> = Vec::new();
        proof {
            crate::grammar::lemma_sequence_empty(p0.toks(), p0.index + 1);
            assert forall|stmts: Seq<Stmt>, j: int| #[trigger] crate::grammar::block_derives(p0.toks(), p0.index as int, stmts, j) implies statements@.len() <= stmts.len()
                && same_stmts(statements@, stmts.take(statements@.len() as int)) && crate::grammar::sequence_derives(
                p0.toks(),
                self.index as int,
                stmts.skip(statements@.len() as int),
                j - 1,
            ) && 0 <= j - 1 < p0.toks().len() && p0.toks()[j - 1].kind == Kind::RBrace && diagnostics@ == d0 by {
                let sh = choose|sh: Shape| #[trigger] crate::grammar::block(p0.toks(), p0.index as int, stmts, j, sh);
                assert(crate::grammar::stmt_sequence(p0.toks(), p0.index + 1, stmts, j - 1, sh));
                assert(stmts.skip(0) =~= stmts);
                assert(stmts.take(0) =~= Seq::<Stmt>::empty());
            }
        }
        while !self.check(TAG_R_BRACE) && !self.check(TAG_EOF)
            invariant
                steps(p0, *self),
                p0.index < self.index,
                grows(d0, diagnostics@),
                p0 == *old(self),
                d0 == old(diagnostics)@,
                clean(d0, diagnostics@) ==> crate::grammar::sequence_derives(
                    p0.toks(),
                    p0.index + 1,
                    statements@,
                    self.index as int,
                ),
                forall|stmts: Seq<Stmt>, j: int| #[trigger] crate::grammar::block_derives(p0.toks(), p0.index as int, stmts, j) ==> statements@.len() <= stmts.len()
                    && same_stmts(statements@, stmts.take(statements@.len() as int)) && crate::grammar::sequence_derives(
                    p0.toks(),
                    self.index as int,
                    stmts.skip(statements@.len() as int),
                    j - 1,
                ) && 0 <= j - 1 < p0.toks().len() && p0.toks()[j - 1].kind == Kind::RBrace && diagnostics@ == d0,
            decreases self.tokens@.len() - self.index,
        {
            let ghost before = self.index as int;
            let ghost d1 = diagnostics@;
            let ghost s1 = *self;
            let ghost done = statements@;
            match self.parse_statement(diagnostics) {
                Some(stmt) => {
                    proof {
                        if clean(d0, diagnostics@) {
                            crate::grammar::lemma_sequence_push(p0.toks(), p0.index + 1, statements@, before, stmt, self.index as int);
                        }
                    }
                    statements.push(stmt);
                    proof {
                        assert forall|stmts: Seq<Stmt>, j: int| #[trigger] crate::grammar::block_derives(p0.toks(), p0.index as int, stmts, j) implies statements@.len() <= stmts.len()
                            && same_stmts(statements@, stmts.take(statements@.len() as int)) && crate::grammar::sequence_derives(
                            p0.toks(),
                            self.index as int,
                            stmts.skip(statements@.len() as int),
                            j - 1,
                        ) && 0 <= j - 1 < p0.toks().len() && p0.toks()[j - 1].kind == Kind::RBrace && diagnostics@ == d0 by {
                            let rest = stmts.skip(done.len() as int);
                            if rest.len() == 0 {
                                crate::readings::lemma_sequence_front(p0.toks(), before, rest, j - 1);
                            }
                            let c = crate::readings::lemma_sequence_front(p0.toks(), before, rest, j - 1);
                            assert(stmt_derives(s1.toks(), s1.index as int, rest[0], c));
                            assert(rest[0] == stmts[done.len() as int]);
                            assert(stmts.take((done.len() + 1) as int) =~= stmts.take(done.len() as int).push(stmts[done.len() as int]));
                            crate::readings::lemma_same_stmts_push(done, stmts.take(done.len() as int), stmt, stmts[done.len() as int]);
                            assert(rest.drop_first() =~= stmts.skip((done.len() + 1) as int));
                        }
                    }
                },
                None => {
                    proof {
                        assert forall|stmts: Seq<Stmt>, j: int| #[trigger] crate::grammar::block_derives(p0.toks(), p0.index as int, stmts, j) implies false by {
                            let rest = stmts.skip(done.len() as int);
                            let c = crate::readings::lemma_sequence_front(p0.toks(), before, rest, j - 1);
                            if rest.len() > 0 {
                                assert(stmt_derives(s1.toks(), s1.index as int, rest[0], c));
                            }
                        }
                    }
                    self.synchronize_statement();
                },
            }
            assert(before < self.index);
        }
        proof {
            assert forall|stmts: Seq<Stmt>, j: int| #[trigger] crate::grammar::block_derives(p0.toks(), p0.index as int, stmts, j) implies statements@.len() == stmts.len()
                && self.index == j - 1 by {
                let rest = stmts.skip(statements@.len() as int);
                let c = crate::readings::lemma_sequence_front(p0.toks(), self.index as int, rest, j - 1);
                if rest.len() > 0 {
                    let sh = choose|sh: Shape| #[trigger] stmt_derivation(p0.toks(), self.index as int, rest[0], c, sh);
                    crate::readings::lemma_stmt_start(p0.toks(), self.index as int, rest[0], c, sh);
                }
            }
        }
        let ghost k = self.index as int;
        if self.expect(TAG_R_BRACE, "Expected '}'", diagnostics).is_none() {
            return None;
        }
        proof {
            if clean(d0, diagnostics@) {
                assert(p0.toks()[p0.index as int].kind == Kind::LBrace);
                assert(p0.toks()[k].kind == Kind::RBrace);
                crate::grammar::lemma_block(p0.toks(), p0.index as int, statements@, k + 1);
            }
            assert forall|stmts: Seq<Stmt>, j: int| #[trigger] crate::grammar::block_derives(p0.toks(), p0.index as int, stmts, j) implies same_stmts(statements@, stmts)
                && self.index == j && diagnostics@ == d0 by {
                assert(stmts.take(stmts.len() as int) =~= stmts);
            }
        }
        Some(statements)
    }

    fn parse_statement(&mut self, diagnostics: &mut Diagnostics) -> (r: Option<Stmt>)
        requires
            old(self).wf(),
        ensures
            r matches Some(st) ==> (clean(old(diagnostics)@, final(diagnostics)@) ==> stmt_derives(
                old(self).toks(),
                old(self).index as int,
                st,
                final(self).index as int,
            )),
            steps(*old(self), *final(self)),
            grows(old(diagnostics)@, final(diagnostics)@),
            r is None ==> error_count(old(diagnostics)@) < error_count(final(diagnostics)@),
            old(self).movable() ==> old(self).index < final(self).index,
            forall|s: Stmt, j: int|
                #[trigger] stmt_derives(old(self).toks(), old(self).index as int, s, j) ==> (r matches Some(x)
                    && same_stmt(x, s)) && final(self).index == j && final(diagnostics)@ == old(diagnostics)@,
            forall|e: Expr, m: int|
                #[trigger] bad_target(old(self).toks(), old(self).index as int, e, m) ==> r is None && final(diagnostics)@
                    == old(diagnostics)@.push(error_at(Some(expr_span(e)), "Invalid assignment target. Expected variable or array index"@)),
        decreases old(self).tokens@.len() - old(self).index, 33int,
    {
        let ghost i0 = self.index as int;
        let ghost d0 = diagnostics@;
        let ghost p0 = *self;
        if self.check(TAG_LET) {
            let let_token = self.advance();
            let entitlement = if self.consume_if(TAG_COLON) {
                match self.expect_identifier("Expected capability name after ':'", diagnostics) {
                    Some(n) => Some(n),
                    None => {
                        proof {
                            assert forall|s: Stmt, j: int| #[trigger] stmt_derives(p0.toks(), i0, s, j) implies false by {
                                let sh = choose|sh: Shape| #[trigger] stmt_derivation(p0.toks(), i0, s, j, sh);
                                crate::readings::lemma_stmt_start(p0.toks(), i0, s, j, sh);
                            }
                        }
                        return None;
                    },
                }
            } else {
                None
            };
            if self.check(TAG_FUNC) || self.check_identifier_text("capability")
                || self.check_identifier_text("right") {
                proof {
                    assert forall|s: Stmt, j: int| #[trigger] stmt_derives(p0.toks(), i0, s, j) implies false by {
                        let sh = choose|sh: Shape| #[trigger] stmt_derivation(p0.toks(), i0, s, j, sh);
                        crate::readings::lemma_stmt_start(p0.toks(), i0, s, j, sh);
                    }
                }
                diagnostics.error(
                    Some(let_token.span),
                    string_of("Only variable declarations with let are allowed inside function body"),
                );
                return None;
            }
            let ghost a = self.index as int;
            proof {
                assert(self.toks()[i0].kind == Kind::Let);
                assert(!crate::grammar::names_other_declaration(self.toks()[a].kind));
            }
            let ghost s1 = *self;
            let ghost ent = entitlement;
            return match self.parse_variable_decl_from_current(
                let_token.span,
                entitlement,
                diagnostics,
            ) {
                Some(d) => {
                    let st = Stmt::VarDecl(d);
                    proof {
                        if clean(d0, diagnostics@) {
                            let ts = self.toks();
                            let (k, sd) = choose|k: int, sh: Shape| #[trigger] declares(ts, a, d, k, sh) && k < ts.len() && self.index == ends(ts, k);
                            assert(a == crate::grammar::after_let_head(ts, i0));
                            assert(crate::grammar::variable_declaration(ts, i0, d, k, sd, false));
                            assert(stmt_derivation(ts, i0, st, self.index as int, Shape::Split(k, Box::new(sd), Box::new(Shape::Leaf))));
                        }
                        assert forall|s: Stmt, j: int| #[trigger] stmt_derives(p0.toks(), i0, s, j) implies same_stmt(st, s) && self.index == j
                            && diagnostics@ == d0 by {
                            let sh = choose|sh: Shape| #[trigger] stmt_derivation(p0.toks(), i0, s, j, sh);
                            crate::readings::lemma_stmt_start(p0.toks(), i0, s, j, sh);
                            match (s, sh) {
                                (Stmt::VarDecl(dd), Shape::Split(k, sd, _)) => {
                                    assert(declares(s1.toks(), s1.index as int, dd, k, *sd));
                                },
                                _ => {},
                            }
                        }
                    }
                    Some(st)
                },
                None => {
                    proof {
                        assert forall|s: Stmt, j: int| #[trigger] stmt_derives(p0.toks(), i0, s, j) implies false by {
                            let sh = choose|sh: Shape| #[trigger] stmt_derivation(p0.toks(), i0, s, j, sh);
                            crate::readings::lemma_stmt_start(p0.toks(), i0, s, j, sh);
                            match (s, sh) {
                                (Stmt::VarDecl(dd), Shape::Split(k, sd, _)) => {
                                    assert(declares(s1.toks(), s1.index as int, dd, k, *sd));
                                },
                                _ => {},
                            }
                        }
                    }
                    None
                },
            };
        }
        if self.check(TAG_IF) {
            return self.parse_if_statement(diagnostics);
        }
        if self.check(TAG_WHILE) {
            return self.parse_while_statement(diagnostics);
        }
        if self.check(TAG_DO) {
            return self.parse_do_while_statement(diagnostics);
        }
        if self.check(TAG_FOR) {
            return self.parse_for_statement(diagnostics);
        }
        if self.check(TAG_L_BRACE) {
            let block_span = self.current_span();
            let ghost s1 = *self;
            let statements = match self.parse_block_statements(diagnostics) {
                Some(s) => s,
                None => {
                    proof {
                        assert forall|s: Stmt, j: int| #[trigger] stmt_derives(p0.toks(), i0, s, j) implies false by {
                            let sh = choose|sh: Shape| #[trigger] stmt_derivation(p0.toks(), i0, s, j, sh);
                            crate::readings::lemma_stmt_start(p0.toks(), i0, s, j, sh);
                            match s {
                                Stmt::Block { statements: b2, .. } => {
                                    assert(crate::grammar::block_derives(s1.toks(), s1.index as int, b2@, j));
                                },
                                _ => {},
                            }
                        }
                    }
                    return None;
                },
            };
            let st = Stmt::Block { statements, span: block_span };
            proof {
                if clean(d0, diagnostics@) {
                    let ts = self.toks();
                    let sh = choose|sh: Shape| #[trigger] crate::grammar::block(ts, i0, statements@, self.index as int, sh);
                    assert(stmt_derivation(ts, i0, st, self.index as int, sh));
                }
                assert forall|s: Stmt, j: int| #[trigger] stmt_derives(p0.toks(), i0, s, j) implies same_stmt(st, s) && self.index == j
                    && diagnostics@ == d0 by {
                    let sh = choose|sh: Shape| #[trigger] stmt_derivation(p0.toks(), i0, s, j, sh);
                    crate::readings::lemma_stmt_start(p0.toks(), i0, s, j, sh);
                    match s {
                        Stmt::Block { statements: b2, .. } => {
                            assert(crate::grammar::block_derives(s1.toks(), s1.index as int, b2@, j));
                        },
                        _ => {},
                    }
                }
            }
            return Some(st);
        }
        if self.check(TAG_RETURN) {
            let return_token = self.advance();
            proof {
                assert(self.toks()[i0].kind == Kind::Return);
            }
            if self.consume_if(TAG_SEMICOLON) {
                let st = Stmt::Return { value: None, span: return_token.span };
                proof {
                    assert(stmt_derivation(self.toks(), i0, st, self.index as int, Shape::Leaf));
                    assert forall|s: Stmt, j: int| #[trigger] stmt_derives(p0.toks(), i0, s, j) implies same_stmt(st, s) && self.index == j
                        && diagnostics@ == d0 by {
                        let sh = choose|sh: Shape| #[trigger] stmt_derivation(p0.toks(), i0, s, j, sh);
                        crate::readings::lemma_stmt_start(p0.toks(), i0, s, j, sh);
                    }
                }
                return Some(st);
            }
            let ghost s1 = *self;
            proof {
                assert(s1.toks() == p0.toks());
            }
            let value = match self.parse_expression(diagnostics) {
                Some(e) => e,
                None => {
                    proof {
                        assert forall|s: Stmt, j: int| #[trigger] stmt_derives(p0.toks(), i0, s, j) implies false by {
                            let sh = choose|sh: Shape| #[trigger] stmt_derivation(p0.toks(), i0, s, j, sh);
                            crate::readings::lemma_stmt_start(p0.toks(), i0, s, j, sh);
                            match (s, sh) {
                                (Stmt::Return { value: Some(v), .. }, Shape::Split(k, sv, _)) => {
                                    assert(derivation(s1.toks(), 0, s1.index as int, v, k, *sv));
                                    assert(reading(s1.toks(), 0, s1.index as int, v, k));
                                },
                                _ => {},
                            }
                        }
                    }
                    return None;
                },
            };
            let ghost k = self.index as int;
            self.consume_if(TAG_SEMICOLON);
            let st = Stmt::Return { value: Some(value), span: return_token.span };
            proof {
                let ts = self.toks();
                let sv = choose|sh: Shape| #[trigger] derivation(ts, 0, i0 + 1, value, k, sh);
                assert(stmt_derivation(ts, i0, st, self.index as int, Shape::Split(k, Box::new(sv), Box::new(Shape::Leaf))));
                assert forall|s: Stmt, j: int| #[trigger] stmt_derives(p0.toks(), i0, s, j) implies same_stmt(st, s) && self.index == j
                    && diagnostics@ == d0 by {
                    let sh = choose|sh: Shape| #[trigger] stmt_derivation(p0.toks(), i0, s, j, sh);
                    crate::readings::lemma_stmt_start(p0.toks(), i0, s, j, sh);
                    match (s, sh) {
                        (Stmt::Return { value: Some(v), .. }, Shape::Split(k2, sv, _)) => {
                            assert(derivation(s1.toks(), 0, s1.index as int, v, k2, *sv));
                            assert(reading(s1.toks(), 0, s1.index as int, v, k2));
                        },
                        _ => {},
                    }
                }
            }
            return Some(st);
        }
        let ghost s1 = *self;
        proof {
            assert(s1.toks() == p0.toks());
        }
        let ghost d_expr = diagnostics@;
        let expr = match self.parse_expression(diagnostics) {
            Some(e) => e,
            None => {
                proof {
                    assert forall|s: Stmt, j: int| #[trigger] stmt_derives(p0.toks(), i0, s, j) implies false by {
                        let sh = choose|sh: Shape| #[trigger] stmt_derivation(p0.toks(), i0, s, j, sh);
                        crate::readings::lemma_stmt_start(p0.toks(), i0, s, j, sh);
                        crate::readings::lemma_simple_reading(p0.toks(), i0, s, j, sh);
                    }
                    assert forall|e: Expr, m2: int| #[trigger] bad_target(p0.toks(), i0, e, m2) implies false by {
                        assert(reading(s1.toks(), 0, s1.index as int, e, m2));
                    }
                }
                return None;
            },
        };
        let ghost m = self.index as int;
        let ghost lhs = expr;
        proof {
            assert forall|e: Expr, m2: int| #[trigger] bad_target(p0.toks(), i0, e, m2) implies same_expr(expr, e)
                && self.index == m2 && diagnostics@ == d_expr && d_expr == d0 && !(expr is Identifier || expr is Index)
                && self.toks()[m2].kind == Kind::Assign && expr_span(expr) == expr_span(e) by {
                assert(reading(s1.toks(), 0, s1.index as int, e, m2));
            }
        }
        if self.consume_if(TAG_ASSIGN) {
            let span = expr.span();
            let target = match expression_to_assign_target(expr) {
                Some(t) => t,
                None => {
                    proof {
                        assert forall|s: Stmt, j: int| #[trigger] stmt_derives(p0.toks(), i0, s, j) implies false by {
                            let sh = choose|sh: Shape| #[trigger] stmt_derivation(p0.toks(), i0, s, j, sh);
                            crate::readings::lemma_stmt_start(p0.toks(), i0, s, j, sh);
                            crate::readings::lemma_simple_reading(p0.toks(), i0, s, j, sh);
                        }
                    }
                    diagnostics.error(
                        Some(span),
                        string_of("Invalid assignment target. Expected variable or array index"),
                    );
                    return None;
                },
            };
            let ghost s2 = *self;
            proof {
                assert(s2.toks() == p0.toks());
            }
            let value = match self.parse_expression(diagnostics) {
                Some(e) => e,
                None => {
                    proof {
                        assert forall|s: Stmt, j: int| #[trigger] stmt_derives(p0.toks(), i0, s, j) implies false by {
                            let sh = choose|sh: Shape| #[trigger] stmt_derivation(p0.toks(), i0, s, j, sh);
                            crate::readings::lemma_stmt_start(p0.toks(), i0, s, j, sh);
                            crate::readings::lemma_simple_reading(p0.toks(), i0, s, j, sh);
                        }
                    }
                    return None;
                },
            };
            let ghost k = self.index as int;
            self.consume_if(TAG_SEMICOLON);
            let ghost g_target = target;
            let ghost g_value = value;
            let st = Stmt::Assign { target, value, span };
            proof {
                let ts = self.toks();
                assert(ts[m].kind == Kind::Assign);
                let sl = choose|sh: Shape| #[trigger] derivation(ts, 0, i0, lhs, m, sh);
                let sv = choose|sh: Shape| #[trigger] derivation(ts, 0, m + 1, value, k, sh);
                let s1 = Shape::Split(m, Box::new(sl), Box::new(sv));
                assert(simple(ts, i0, st, k, s1));
                assert(stmt_derivation(ts, i0, st, self.index as int, Shape::Split(k, Box::new(s1), Box::new(Shape::Leaf))));
            }
            proof {
                assert forall|s: Stmt, j: int| #[trigger] stmt_derives(p0.toks(), i0, s, j) implies same_stmt(st, s) && self.index == j
                    && diagnostics@ == d0 by {
                    let sh = choose|sh: Shape| #[trigger] stmt_derivation(p0.toks(), i0, s, j, sh);
                    crate::readings::lemma_stmt_start(p0.toks(), i0, s, j, sh);
                    crate::readings::lemma_simple_reading(p0.toks(), i0, s, j, sh);
                    match s {
                        Stmt::Assign { target: t2, span: sp2, .. } => {
                            crate::readings::lemma_same_target(g_target, expr_span(lhs), t2, sp2);
                        },
                        _ => {},
                    }
                }
            }
            return Some(st);
        }
        self.consume_if(TAG_SEMICOLON);
        let expr_span = expr.span();
        let st = Stmt::Expr { expr, span: expr_span };
        proof {
            let ts = self.toks();
            let s1 = choose|sh: Shape| #[trigger] derivation(ts, 0, i0, lhs, m, sh);
            assert(simple(ts, i0, st, m, s1));
            assert(stmt_derivation(ts, i0, st, self.index as int, Shape::Split(m, Box::new(s1), Box::new(Shape::Leaf))));
            assert forall|s: Stmt, j: int| #[trigger] stmt_derives(p0.toks(), i0, s, j) implies same_stmt(st, s) && self.index == j
                && diagnostics@ == d0 by {
                let sh = choose|sh: Shape| #[trigger] stmt_derivation(p0.toks(), i0, s, j, sh);
                crate::readings::lemma_stmt_start(p0.toks(), i0, s, j, sh);
                crate::readings::lemma_simple_reading(p0.toks(), i0, s, j, sh);
                crate::readings::lemma_same_symmetric(lhs, s->Expr_expr);
            }
        }
        Some(st)
    }

    fn parse_if_statement(&mut self, diagnostics: &mut Diagnostics) -> (r: Option<Stmt>)
        requires
            old(self).wf(),
        ensures
            r matches Some(st) ==> st is If,
            r matches Some(st) ==> (clean(old(diagnostics)@, final(diagnostics)@) ==> stmt_derives(
                old(self).toks(),
                old(self).index as int,
                st,
                final(self).index as int,
            )),
            steps(*old(self), *final(self)),
            grows(old(diagnostics)@, final(diagnostics)@),
            r is None ==> error_count(old(diagnostics)@) < error_count(final(diagnostics)@),
            kind_tag(old(self).cur().kind) == TAG_IF ==> old(self).index < final(self).index,
            old(self).cur().kind == Kind::If ==> forall|s: Stmt, j: int|
                #[trigger] stmt_derives(old(self).toks(), old(self).index as int, s, j) ==> (r matches Some(x)
                    && same_stmt(x, s)) && final(self).index == j && final(diagnostics)@ == old(diagnostics)@,
        decreases old(self).tokens@.len() - old(self).index, 32int,
    {
        let ghost i0 = self.index as int;
        let ghost d0 = diagnostics@;
        let ghost p0 = *self;
        let if_token = match self.expect(TAG_IF, "Expected 'if' keyword", diagnostics) {
            Some(t) => t,
            None => {
                return None;
            },
        };
        if self.expect(TAG_L_PAREN, "Expected '(' after if", diagnostics).is_none() {
            proof {
                assert forall|s: Stmt, j: int| #[trigger] stmt_derives(p0.toks(), i0, s, j) implies false by {
                    let sh = choose|sh: Shape| #[trigger] stmt_derivation(p0.toks(), i0, s, j, sh);
                    let km = crate::readings::lemma_if_reading(p0.toks(), i0, s, j, sh);
                }
            }
            return None;
        }
        let ghost s1 = *self;
        proof {
            assert(s1.toks() == p0.toks());
        }
        let condition = match self.parse_expression(diagnostics) {
            Some(e) => e,
            None => {
                proof {
                    assert forall|s: Stmt, j: int| #[trigger] stmt_derives(p0.toks(), i0, s, j) implies false by {
                        let sh = choose|sh: Shape| #[trigger] stmt_derivation(p0.toks(), i0, s, j, sh);
                        let km = crate::readings::lemma_if_reading(p0.toks(), i0, s, j, sh);
                        assert(reading(s1.toks(), 0, s1.index as int, s->If_condition, km.0));
                    }
                }
                return None;
            },
        };
        let ghost k = self.index as int;
        if self.expect(TAG_R_PAREN, "Expected ')' after if condition", diagnostics).is_none() {
            proof {
                assert forall|s: Stmt, j: int| #[trigger] stmt_derives(p0.toks(), i0, s, j) implies false by {
                    let sh = choose|sh: Shape| #[trigger] stmt_derivation(p0.toks(), i0, s, j, sh);
                    let km = crate::readings::lemma_if_reading(p0.toks(), i0, s, j, sh);
                    assert(reading(s1.toks(), 0, s1.index as int, s->If_condition, km.0));
                }
            }
            return None;
        }
        let ghost s2 = *self;
        proof {
            assert(s2.toks() == p0.toks());
        }
        let then_branch = match self.parse_block_statements(diagnostics) {
            Some(b) => b,
            None => {
                proof {
                    assert forall|s: Stmt, j: int| #[trigger] stmt_derives(p0.toks(), i0, s, j) implies false by {
                        let sh = choose|sh: Shape| #[trigger] stmt_derivation(p0.toks(), i0, s, j, sh);
                        let km = crate::readings::lemma_if_reading(p0.toks(), i0, s, j, sh);
                        assert(reading(s1.toks(), 0, s1.index as int, s->If_condition, km.0));
                        assert(crate::grammar::block_derives(s2.toks(), s2.index as int, s->If_then_branch@, km.1));
                    }
                }
                return None;
            },
        };
        let ghost m = self.index as int;
        let ghost s3 = *self;
        let ghost mut s4 = *self;
        let else_branch = if self.consume_if(TAG_ELSE) {
            proof {
                s4 = *self;
                assert(s4.toks() == p0.toks());
            }
            if self.check(TAG_IF) {
                match self.parse_if_statement(diagnostics) {
                    Some(s) => {
                        let ghost g = s;
                        let v = vec![s];
                        assert(v@[0] == g);
                        v
                    },
                    None => {
                        proof {
                            assert forall|s: Stmt, j: int| #[trigger] stmt_derives(p0.toks(), i0, s, j) implies false by {
                                let sh = choose|sh: Shape| #[trigger] stmt_derivation(p0.toks(), i0, s, j, sh);
                                let km = crate::readings::lemma_if_reading(p0.toks(), i0, s, j, sh);
                                assert(reading(s1.toks(), 0, s1.index as int, s->If_condition, km.0));
                                assert(crate::grammar::block_derives(s2.toks(), s2.index as int, s->If_then_branch@, km.1));
                                assert(stmt_derives(s4.toks(), s4.index as int, s->If_else_branch@[0], j));
                            }
                        }
                        return None;
                    },
                }
            } else {
                match self.parse_block_statements(diagnostics) {
                    Some(b) => b,
                    None => {
                        proof {
                            assert forall|s: Stmt, j: int| #[trigger] stmt_derives(p0.toks(), i0, s, j) implies false by {
                                let sh = choose|sh: Shape| #[trigger] stmt_derivation(p0.toks(), i0, s, j, sh);
                                let km = crate::readings::lemma_if_reading(p0.toks(), i0, s, j, sh);
                                assert(reading(s1.toks(), 0, s1.index as int, s->If_condition, km.0));
                                assert(crate::grammar::block_derives(s2.toks(), s2.index as int, s->If_then_branch@, km.1));
                                assert(crate::grammar::block_derives(s4.toks(), s4.index as int, s->If_else_branch@, j));
                            }
                        }
                        return None;
                    },
                }
            }
        } else {
            Vec::new()
        };
        let st = Stmt::If { condition, then_branch, else_branch, span: if_token.span };
        proof {
            if clean(d0, diagnostics@) {
                let ts = self.toks();
                let j = self.index as int;
                assert(ts[i0].kind == Kind::If);
                assert(ts[i0 + 1].kind == Kind::LParen);
                assert(ts[k].kind == Kind::RParen);
                let sc = choose|sh: Shape| #[trigger] derivation(ts, 0, i0 + 2, condition, k, sh);
                let st_ = choose|sh: Shape| #[trigger] crate::grammar::block(ts, k + 1, then_branch@, m, sh);
                if ts[m].kind == Kind::Else {
                    if ts[m + 1].kind == Kind::If {
                        let se = choose|sh: Shape| #[trigger] stmt_derivation(ts, m + 1, else_branch@[0], j, sh);
                        assert(stmt_derivation(ts, i0, st, j, Shape::Cond(k, m, Box::new(sc), Box::new(st_), Box::new(se))));
                    } else {
                        let se = choose|sh: Shape| #[trigger] crate::grammar::block(ts, m + 1, else_branch@, j, sh);
                        assert(stmt_derivation(ts, i0, st, j, Shape::Cond(k, m, Box::new(sc), Box::new(st_), Box::new(se))));
                    }
                } else {
                    assert(stmt_derivation(ts, i0, st, j, Shape::Cond(k, m, Box::new(sc), Box::new(st_), Box::new(Shape::Leaf))));
                }
            }
            assert forall|s: Stmt, j: int| #[trigger] stmt_derives(p0.toks(), i0, s, j) implies same_stmt(st, s) && self.index == j && diagnostics@ == d0 by {
                let sh = choose|sh: Shape| #[trigger] stmt_derivation(p0.toks(), i0, s, j, sh);
                let km = crate::readings::lemma_if_reading(p0.toks(), i0, s, j, sh);
                assert(reading(s1.toks(), 0, s1.index as int, s->If_condition, km.0));
                assert(crate::grammar::block_derives(s2.toks(), s2.index as int, s->If_then_branch@, km.1));
                if p0.toks()[km.1].kind == Kind::Else {
                    if p0.toks()[km.1 + 1].kind == Kind::If {
                        assert(stmt_derives(s4.toks(), s4.index as int, s->If_else_branch@[0], j));
                    } else {
                        assert(crate::grammar::block_derives(s4.toks(), s4.index as int, s->If_else_branch@, j));
                    }
                }
            }
        }
        Some(st)
    }

    fn parse_while_statement(&mut self, diagnostics: &mut Diagnostics) -> (r: Option<Stmt>)
        requires
            old(self).wf(),
        ensures
            r matches Some(st) ==> (clean(old(diagnostics)@, final(diagnostics)@) ==> stmt_derives(
                old(self).toks(),
                old(self).index as int,
                st,
                final(self).index as int,
            )),
            steps(*old(self), *final(self)),
            grows(old(diagnostics)@, final(diagnostics)@),
            r is None ==> error_count(old(diagnostics)@) < error_count(final(diagnostics)@),
            kind_tag(old(self).cur().kind) == TAG_WHILE ==> old(self).index < final(self).index,
            old(self).cur().kind == Kind::While ==> forall|s: Stmt, j: int|
                #[trigger] stmt_derives(old(self).toks(), old(self).index as int, s, j) ==> (r matches Some(x)
                    && same_stmt(x, s)) && final(self).index == j && final(diagnostics)@ == old(diagnostics)@,
        decreases old(self).tokens@.len() - old(self).index, 32int,
    {
        let ghost i0 = self.index as int;
        let ghost d0 = diagnostics@;
        let ghost p0 = *self;
        let while_token = match self.expect(TAG_WHILE, "Expected 'while' keyword", diagnostics) {
            Some(t) => t,
            None => {
                return None;
            },
        };
        if self.expect(TAG_L_PAREN, "Expected '(' after while", diagnostics).is_none() {
            proof {
                assert forall|s: Stmt, j: int| #[trigger] stmt_derives(p0.toks(), i0, s, j) implies false by {
                    let sh = choose|sh: Shape| #[trigger] stmt_derivation(p0.toks(), i0, s, j, sh);
                    let km: int = crate::readings::lemma_while_reading(p0.toks(), i0, s, j, sh);
                }
            }
            return None;
        }
        let ghost s1 = *self;
        proof {
            assert(s1.toks() == p0.toks());
        }
        let condition = match self.parse_expression(diagnostics) {
            Some(e) => e,
            None => {
                proof {
                    assert forall|s: Stmt, j: int| #[trigger] stmt_derives(p0.toks(), i0, s, j) implies false by {
                        let sh = choose|sh: Shape| #[trigger] stmt_derivation(p0.toks(), i0, s, j, sh);
                        let km: int = crate::readings::lemma_while_reading(p0.toks(), i0, s, j, sh);
                        assert(reading(s1.toks(), 0, s1.index as int, s->While_condition, km));
                    }
                }
                return None;
            },
        };
        let ghost k = self.index as int;
        if self.expect(TAG_R_PAREN, "Expected ')' after while condition", diagnostics).is_none() {
            proof {
                assert forall|s: Stmt, j: int| #[trigger] stmt_derives(p0.toks(), i0, s, j) implies false by {
                    let sh = choose|sh: Shape| #[trigger] stmt_derivation(p0.toks(), i0, s, j, sh);
                    let km: int = crate::readings::lemma_while_reading(p0.toks(), i0, s, j, sh);
                    assert(reading(s1.toks(), 0, s1.index as int, s->While_condition, km));
                }
            }
            return None;
        }
        let ghost s2 = *self;
        proof {
            assert(s2.toks() == p0.toks());
        }
        let body = match self.parse_block_statements(diagnostics) {
            Some(b) => b,
            None => {
                proof {
                    assert forall|s: Stmt, j: int| #[trigger] stmt_derives(p0.toks(), i0, s, j) implies false by {
                        let sh = choose|sh: Shape| #[trigger] stmt_derivation(p0.toks(), i0, s, j, sh);
                        let km: int = crate::readings::lemma_while_reading(p0.toks(), i0, s, j, sh);
                        assert(reading(s1.toks(), 0, s1.index as int, s->While_condition, km));
                        assert(crate::grammar::block_derives(s2.toks(), s2.index as int, s->While_body@, j));
                    }
                }
                return None;
            },
        };
        let st = Stmt::While { condition, body, span: while_token.span };
        proof {
            if clean(d0, diagnostics@) {
                let ts = self.toks();
                assert(ts[i0].kind == Kind::While);
                assert(ts[i0 + 1].kind == Kind::LParen);
                assert(ts[k].kind == Kind::RParen);
                let sc = choose|sh: Shape| #[trigger] derivation(ts, 0, i0 + 2, condition, k, sh);
                let sb = choose|sh: Shape| #[trigger] crate::grammar::block(ts, k + 1, body@, self.index as int, sh);
                assert(stmt_derivation(ts, i0, st, self.index as int, Shape::Split(k, Box::new(sc), Box::new(sb))));
            }
            assert forall|s: Stmt, j: int| #[trigger] stmt_derives(p0.toks(), i0, s, j) implies same_stmt(st, s) && self.index == j && diagnostics@ == d0 by {
                let sh = choose|sh: Shape| #[trigger] stmt_derivation(p0.toks(), i0, s, j, sh);
                let km: int = crate::readings::lemma_while_reading(p0.toks(), i0, s, j, sh);
                assert(reading(s1.toks(), 0, s1.index as int, s->While_condition, km));
                assert(crate::grammar::block_derives(s2.toks(), s2.index as int, s->While_body@, j));
            }
        }
        Some(st)
    }

    fn parse_do_while_statement(&mut self, diagnostics: &mut Diagnostics) -> (r: Option<Stmt>)
        requires
            old(self).wf(),
        ensures
            r matches Some(st) ==> (clean(old(diagnostics)@, final(diagnostics)@) ==> stmt_derives(
                old(self).toks(),
                old(self).index as int,
                st,
                final(self).index as int,
            )),
            steps(*old(self), *final(self)),
            grows(old(diagnostics)@, final(diagnostics)@),
            r is None ==> error_count(old(diagnostics)@) < error_count(final(diagnostics)@),
            kind_tag(old(self).cur().kind) == TAG_DO ==> old(self).index < final(self).index,
            old(self).cur().kind == Kind::Do ==> forall|s: Stmt, j: int|
                #[trigger] stmt_derives(old(self).toks(), old(self).index as int, s, j) ==> (r matches Some(x)
                    && same_stmt(x, s)) && final(self).index == j && final(diagnostics)@ == old(diagnostics)@,
        decreases old(self).tokens@.len() - old(self).index, 32int,
    {
        let ghost i0 = self.index as int;
        let ghost d0 = diagnostics@;
        let ghost p0 = *self;
        let do_token = match self.expect(TAG_DO, "Expected 'do' keyword", diagnostics) {
            Some(t) => t,
            None => {
                return None;
            },
        };
        let ghost s1 = *self;
        proof {
            assert(s1.toks() == p0.toks());
        }
        let body = match self.parse_block_statements(diagnostics) {
            Some(b) => b,
            None => {
                proof {
                    assert forall|s: Stmt, j: int| #[trigger] stmt_derives(p0.toks(), i0, s, j) implies false by {
                        let sh = choose|sh: Shape| #[trigger] stmt_derivation(p0.toks(), i0, s, j, sh);
                        let km = crate::readings::lemma_do_reading(p0.toks(), i0, s, j, sh);
                        assert(crate::grammar::block_derives(s1.toks(), s1.index as int, s->DoWhile_body@, km.0));
                    }
                }
                return None;
            },
        };
        let ghost k = self.index as int;
        if self.expect(TAG_WHILE, "Expected 'while' after do-block", diagnostics).is_none() {
            proof {
                assert forall|s: Stmt, j: int| #[trigger] stmt_derives(p0.toks(), i0, s, j) implies false by {
                    let sh = choose|sh: Shape| #[trigger] stmt_derivation(p0.toks(), i0, s, j, sh);
                    let km = crate::readings::lemma_do_reading(p0.toks(), i0, s, j, sh);
                    assert(crate::grammar::block_derives(s1.toks(), s1.index as int, s->DoWhile_body@, km.0));
                }
            }
            return None;
        }
        if self.expect(TAG_L_PAREN, "Expected '(' after while in do-while", diagnostics).is_none() {
            proof {
                assert forall|s: Stmt, j: int| #[trigger] stmt_derives(p0.toks(), i0, s, j) implies false by {
                    let sh = choose|sh: Shape| #[trigger] stmt_derivation(p0.toks(), i0, s, j, sh);
                    let km = crate::readings::lemma_do_reading(p0.toks(), i0, s, j, sh);
                    assert(crate::grammar::block_derives(s1.toks(), s1.index as int, s->DoWhile_body@, km.0));
                }
            }
            return None;
        }
        let ghost s2 = *self;
        proof {
            assert(s2.toks() == p0.toks());
        }
        let condition = match self.parse_expression(diagnostics) {
            Some(e) => e,
            None => {
                proof {
                    assert forall|s: Stmt, j: int| #[trigger] stmt_derives(p0.toks(), i0, s, j) implies false by {
                        let sh = choose|sh: Shape| #[trigger] stmt_derivation(p0.toks(), i0, s, j, sh);
                        let km = crate::readings::lemma_do_reading(p0.toks(), i0, s, j, sh);
                        assert(crate::grammar::block_derives(s1.toks(), s1.index as int, s->DoWhile_body@, km.0));
                        assert(reading(s2.toks(), 0, s2.index as int, s->DoWhile_condition, km.1));
                    }
                }
                return None;
            },
        };
        let ghost m = self.index as int;
        if self.expect(TAG_R_PAREN, "Expected ')' after do-while condition", diagnostics).is_none() {
            proof {
                assert forall|s: Stmt, j: int| #[trigger] stmt_derives(p0.toks(), i0, s, j) implies false by {
                    let sh = choose|sh: Shape| #[trigger] stmt_derivation(p0.toks(), i0, s, j, sh);
                    let km = crate::readings::lemma_do_reading(p0.toks(), i0, s, j, sh);
                    assert(crate::grammar::block_derives(s1.toks(), s1.index as int, s->DoWhile_body@, km.0));
                    assert(reading(s2.toks(), 0, s2.index as int, s->DoWhile_condition, km.1));
                }
            }
            return None;
        }
        self.consume_if(TAG_SEMICOLON);
        let st = Stmt::DoWhile { body, condition, span: do_token.span };
        proof {
            if clean(d0, diagnostics@) {
                let ts = self.toks();
                assert(ts[i0].kind == Kind::Do);
                assert(ts[k].kind == Kind::While);
                assert(ts[k + 1].kind == Kind::LParen);
                assert(ts[m].kind == Kind::RParen);
                let sb = choose|sh: Shape| #[trigger] crate::grammar::block(ts, i0 + 1, body@, k, sh);
                let sc = choose|sh: Shape| #[trigger] derivation(ts, 0, k + 2, condition, m, sh);
                assert(stmt_derivation(ts, i0, st, self.index as int, Shape::Cond(k, m, Box::new(sb), Box::new(sc), Box::new(Shape::Leaf))));
            }
            assert forall|s: Stmt, j: int| #[trigger] stmt_derives(p0.toks(), i0, s, j) implies same_stmt(st, s) && self.index == j && diagnostics@ == d0 by {
                let sh = choose|sh: Shape| #[trigger] stmt_derivation(p0.toks(), i0, s, j, sh);
                let km = crate::readings::lemma_do_reading(p0.toks(), i0, s, j, sh);
                assert(crate::grammar::block_derives(s1.toks(), s1.index as int, s->DoWhile_body@, km.0));
                assert(reading(s2.toks(), 0, s2.index as int, s->DoWhile_condition, km.1));
            }
        }
        Some(st)
    }

    #[verifier::rlimit(100)]
    #[verifier::spinoff_prover]
    fn parse_for_statement(&mut self, diagnostics: &mut Diagnostics) -> (r: Option<Stmt>)
        requires
            old(self).wf(),
        ensures
            r matches Some(st) ==> (clean(old(diagnostics)@, final(diagnostics)@) ==> stmt_derives(
                old(self).toks(),
                old(self).index as int,
                st,
                final(self).index as int,
            )),
            steps(*old(self), *final(self)),
            grows(old(diagnostics)@, final(diagnostics)@),
            r is None ==> error_count(old(diagnostics)@) < error_count(final(diagnostics)@),
            kind_tag(old(self).cur().kind) == TAG_FOR ==> old(self).index < final(self).index,
            old(self).cur().kind == Kind::For ==> forall|s: Stmt, j: int|
                #[trigger] stmt_derives(old(self).toks(), old(self).index as int, s, j) ==> (r matches Some(x)
                    && same_stmt(x, s)) && final(self).index == j && final(diagnostics)@ == old(diagnostics)@,
        decreases old(self).tokens@.len() - old(self).index, 32int,
    {
        let ghost i0 = self.index as int;
        let ghost d0 = diagnostics@;
        let ghost p0 = *self;
        let for_token = match self.expect(TAG_FOR, "Expected 'for' keyword", diagnostics) {
            Some(t) => t,
            None => {
                return None;
            },
        };
        if self.expect(TAG_L_PAREN, "Expected '(' after for", diagnostics).is_none() {
            proof {
                assert forall|s: Stmt, j: int| #[trigger] stmt_derives(p0.toks(), i0, s, j) implies false by {
                    let sh = choose|sh: Shape| #[trigger] stmt_derivation(p0.toks(), i0, s, j, sh);
                    let parts = crate::readings::lemma_for_reading(p0.toks(), i0, s, j, sh);
                    let has_init = p0.toks()[i0 + 2].kind != Kind::Semicolon;
                    let init: Option<Stmt> = if has_init { Some(s->Block_statements@[0]) } else { None };
                    let w = if has_init { s->Block_statements@[1] } else { s };
                    let body_g = if p0.toks()[parts.1].kind == Kind::RParen { w->While_body@ } else { w->While_body@.drop_last() };
                }
            }
            return None;
        }
        let ghost s_h = *self;
        proof {
            assert(s_h.toks() == p0.toks());
        }
        let init = match self.parse_for_header_clause(true, diagnostics) {
            Some(c) => c,
            None => {
                proof {
                    assert forall|s: Stmt, j: int| #[trigger] stmt_derives(p0.toks(), i0, s, j) implies false by {
                        let sh = choose|sh: Shape| #[trigger] stmt_derivation(p0.toks(), i0, s, j, sh);
                        let parts = crate::readings::lemma_for_reading(p0.toks(), i0, s, j, sh);
                        let has_init = p0.toks()[i0 + 2].kind != Kind::Semicolon;
                        let init: Option<Stmt> = if has_init { Some(s->Block_statements@[0]) } else { None };
                        let w = if has_init { s->Block_statements@[1] } else { s };
                        let body_g = if p0.toks()[parts.1].kind == Kind::RParen { w->While_body@ } else { w->While_body@.drop_last() };
                        assert(crate::grammar::for_init(s_h.toks(), s_h.index as int, init, parts.0, parts.3));
                    }
                }
                return None;
            },
        };
        let ghost a = self.index as int;
        let ghost mut s_c = *self;
        let condition = if self.consume_if(TAG_SEMICOLON) {
            None
        } else {
            proof {
                s_c = *self;
                assert(s_c.toks() == p0.toks());
            }
            let expr = match self.parse_expression(diagnostics) {
                Some(e) => e,
                None => {
                    proof {
                        assert forall|s: Stmt, j: int| #[trigger] stmt_derives(p0.toks(), i0, s, j) implies false by {
                            let sh = choose|sh: Shape| #[trigger] stmt_derivation(p0.toks(), i0, s, j, sh);
                            let parts = crate::readings::lemma_for_reading(p0.toks(), i0, s, j, sh);
                            let has_init = p0.toks()[i0 + 2].kind != Kind::Semicolon;
                            let init: Option<Stmt> = if has_init { Some(s->Block_statements@[0]) } else { None };
                            let w = if has_init { s->Block_statements@[1] } else { s };
                            let body_g = if p0.toks()[parts.1].kind == Kind::RParen { w->While_body@ } else { w->While_body@.drop_last() };
                            assert(crate::grammar::for_init(s_h.toks(), s_h.index as int, init, parts.0, parts.3));
                            if p0.toks()[parts.0].kind != Kind::Semicolon { assert(reading(s_c.toks(), 0, s_c.index as int, w->While_condition, parts.1 - 1)); }
                        }
                    }
                    return None;
                },
            };
            if self.expect(TAG_SEMICOLON, "Expected ';' after for condition", diagnostics).is_none() {
                proof {
                    assert forall|s: Stmt, j: int| #[trigger] stmt_derives(p0.toks(), i0, s, j) implies false by {
                        let sh = choose|sh: Shape| #[trigger] stmt_derivation(p0.toks(), i0, s, j, sh);
                        let parts = crate::readings::lemma_for_reading(p0.toks(), i0, s, j, sh);
                        let has_init = p0.toks()[i0 + 2].kind != Kind::Semicolon;
                        let init: Option<Stmt> = if has_init { Some(s->Block_statements@[0]) } else { None };
                        let w = if has_init { s->Block_statements@[1] } else { s };
                        let body_g = if p0.toks()[parts.1].kind == Kind::RParen { w->While_body@ } else { w->While_body@.drop_last() };
                        assert(crate::grammar::for_init(s_h.toks(), s_h.index as int, init, parts.0, parts.3));
                        if p0.toks()[parts.0].kind != Kind::Semicolon { assert(reading(s_c.toks(), 0, s_c.index as int, w->While_condition, parts.1 - 1)); }
                    }
                }
                return None;
            }
            Some(expr)
        };
        let ghost b = self.index as int;
        let ghost s_u = *self;
        proof {
            assert(s_u.toks() == p0.toks());
        }
        let update = match self.parse_for_header_clause(false, diagnostics) {
            Some(c) => c,
            None => {
                proof {
                    assert forall|s: Stmt, j: int| #[trigger] stmt_derives(p0.toks(), i0, s, j) implies false by {
                        let sh = choose|sh: Shape| #[trigger] stmt_derivation(p0.toks(), i0, s, j, sh);
                        let parts = crate::readings::lemma_for_reading(p0.toks(), i0, s, j, sh);
                        let has_init = p0.toks()[i0 + 2].kind != Kind::Semicolon;
                        let init: Option<Stmt> = if has_init { Some(s->Block_statements@[0]) } else { None };
                        let w = if has_init { s->Block_statements@[1] } else { s };
                        let body_g = if p0.toks()[parts.1].kind == Kind::RParen { w->While_body@ } else { w->While_body@.drop_last() };
                        assert(crate::grammar::for_init(s_h.toks(), s_h.index as int, init, parts.0, parts.3));
                        if p0.toks()[parts.0].kind != Kind::Semicolon { assert(reading(s_c.toks(), 0, s_c.index as int, w->While_condition, parts.1 - 1)); }
                        if p0.toks()[parts.1].kind != Kind::RParen { assert(simple(s_u.toks(), s_u.index as int, w->While_body@.last(), parts.2, parts.4)); }
                    }
                }
                return None;
            },
        };
        let ghost c = self.index as int;
        if self.expect(TAG_R_PAREN, "Expected ')' after for clauses", diagnostics).is_none() {
            proof {
                assert forall|s: Stmt, j: int| #[trigger] stmt_derives(p0.toks(), i0, s, j) implies false by {
                    let sh = choose|sh: Shape| #[trigger] stmt_derivation(p0.toks(), i0, s, j, sh);
                    let parts = crate::readings::lemma_for_reading(p0.toks(), i0, s, j, sh);
                    let has_init = p0.toks()[i0 + 2].kind != Kind::Semicolon;
                    let init: Option<Stmt> = if has_init { Some(s->Block_statements@[0]) } else { None };
                    let w = if has_init { s->Block_statements@[1] } else { s };
                    let body_g = if p0.toks()[parts.1].kind == Kind::RParen { w->While_body@ } else { w->While_body@.drop_last() };
                    assert(crate::grammar::for_init(s_h.toks(), s_h.index as int, init, parts.0, parts.3));
                    if p0.toks()[parts.0].kind != Kind::Semicolon { assert(reading(s_c.toks(), 0, s_c.index as int, w->While_condition, parts.1 - 1)); }
                    if p0.toks()[parts.1].kind != Kind::RParen { assert(simple(s_u.toks(), s_u.index as int, w->While_body@.last(), parts.2, parts.4)); }
                }
            }
            return None;
        }
        let ghost s_b = *self;
        proof {
            assert(s_b.toks() == p0.toks());
        }
        let body = match self.parse_block_statements(diagnostics) {
            Some(b) => b,
            None => {
                proof {
                    assert forall|s: Stmt, j: int| #[trigger] stmt_derives(p0.toks(), i0, s, j) implies false by {
                        let sh = choose|sh: Shape| #[trigger] stmt_derivation(p0.toks(), i0, s, j, sh);
                        let parts = crate::readings::lemma_for_reading(p0.toks(), i0, s, j, sh);
                        let has_init = p0.toks()[i0 + 2].kind != Kind::Semicolon;
                        let init: Option<Stmt> = if has_init { Some(s->Block_statements@[0]) } else { None };
                        let w = if has_init { s->Block_statements@[1] } else { s };
                        let body_g = if p0.toks()[parts.1].kind == Kind::RParen { w->While_body@ } else { w->While_body@.drop_last() };
                        assert(crate::grammar::for_init(s_h.toks(), s_h.index as int, init, parts.0, parts.3));
                        if p0.toks()[parts.0].kind != Kind::Semicolon { assert(reading(s_c.toks(), 0, s_c.index as int, w->While_condition, parts.1 - 1)); }
                        if p0.toks()[parts.1].kind != Kind::RParen { assert(simple(s_u.toks(), s_u.index as int, w->While_body@.last(), parts.2, parts.4)); }
                        assert(crate::grammar::block_derives(s_b.toks(), s_b.index as int, body_g, j));
                    }
                }
                return None;
            },
        };
        let ghost g_init = init;
        let ghost g_condition = condition;
        let ghost g_update = update;
        let ghost g_body = body@;
        let st = lower_for(for_token.span, init, condition, update, body);
        proof {
            if clean(d0, diagnostics@) {
                let ts = self.toks();
                let j = self.index as int;
                let span = ts[i0].span;
                assert(ts[i0].kind == Kind::For);
                assert(ts[i0 + 1].kind == Kind::LParen);
                assert(ts[c].kind == Kind::RParen);
                assert(span == for_token.span);
                let s_init = choose|sh: Shape| #[trigger] crate::grammar::for_init(ts, i0 + 2, g_init, a, sh);
                let s_cond = if ts[a].kind == Kind::Semicolon {
                    Shape::Leaf
                } else {
                    choose|sh: Shape| #[trigger] derivation(ts, 0, a, g_condition->0, b - 1, sh)
                };
                let s_update = if ts[b].kind == Kind::RParen {
                    Shape::Leaf
                } else {
                    choose|sh: Shape| #[trigger] simple(ts, b, g_update->0, c, sh)
                };
                let s_body = choose|sh: Shape| #[trigger] crate::grammar::block(ts, c + 1, g_body, j, sh);
                let w = if g_init is Some { st->Block_statements@[1] } else { st };
                assert(w is While);
                if ts[b].kind != Kind::RParen {
                    assert(w->While_body@.drop_last() =~= g_body);
                } else {
                    assert(w->While_body@ =~= g_body);
                }
                assert(crate::grammar::for_condition(ts, a, w->While_condition, b, span, s_cond));
                assert(crate::grammar::for_loop(ts, i0, a, b, c, j, w, span, s_cond, s_update, s_body));
                let sh = Shape::Cond(a, b, Box::new(s_init), Box::new(s_cond), Box::new(Shape::Split(c, Box::new(s_update), Box::new(s_body))));
                assert(crate::grammar::for_derivation(ts, i0, st, j, sh));
                assert(stmt_derivation(ts, i0, st, j, sh));
            }
            assert forall|s: Stmt, j: int| #[trigger] stmt_derives(p0.toks(), i0, s, j) implies same_stmt(st, s) && self.index == j && diagnostics@ == d0 by {
                let sh = choose|sh: Shape| #[trigger] stmt_derivation(p0.toks(), i0, s, j, sh);
                let parts = crate::readings::lemma_for_reading(p0.toks(), i0, s, j, sh);
                let has_init = p0.toks()[i0 + 2].kind != Kind::Semicolon;
                let init: Option<Stmt> = if has_init { Some(s->Block_statements@[0]) } else { None };
                let w = if has_init { s->Block_statements@[1] } else { s };
                let body_g = if p0.toks()[parts.1].kind == Kind::RParen { w->While_body@ } else { w->While_body@.drop_last() };
                assert(crate::grammar::for_init(s_h.toks(), s_h.index as int, init, parts.0, parts.3));
                if p0.toks()[parts.0].kind != Kind::Semicolon { assert(reading(s_c.toks(), 0, s_c.index as int, w->While_condition, parts.1 - 1)); }
                if p0.toks()[parts.1].kind != Kind::RParen { assert(simple(s_u.toks(), s_u.index as int, w->While_body@.last(), parts.2, parts.4)); }
                assert(crate::grammar::block_derives(s_b.toks(), s_b.index as int, body_g, j));
                let w2 = if g_init is Some { st->Block_statements@[1] } else { st };
                if g_condition is None {
                    crate::readings::lemma_same_reflexive(w->While_condition);
                }
                if p0.toks()[parts.1].kind != Kind::RParen {
                    let u = g_update->0;
                    assert(w->While_body@.drop_last().push(w->While_body@.last()) =~= w->While_body@);
                    crate::readings::lemma_same_stmts_push(g_body, w->While_body@.drop_last(), u, w->While_body@.last());
                    assert(crate::readings::same_stmts(w2->While_body@, w->While_body@));
                } else {
                    assert(crate::readings::same_stmts(w2->While_body@, w->While_body@));
                }
                assert(same_stmt(w2, w));
            }
        }
        Some(st)
    }

    #[verifier::rlimit(80)]
    #[verifier::spinoff_prover]
    fn parse_for_header_clause(&mut self, expect_semicolon: bool, diagnostics: &mut Diagnostics) -> (r:
        Option<Option<Stmt>>)
        requires
            old(self).wf(),
        ensures
            r matches Some(clause) ==> (clean(old(diagnostics)@, final(diagnostics)@) ==> if expect_semicolon {
                exists|sh: Shape| #[trigger] crate::grammar::for_init(
                    old(self).toks(),
                    old(self).index as int,
                    clause,
                    final(self).index as int,
                    sh,
                )
            } else {
                match clause {
                    None => old(self).toks()[old(self).index as int].kind == Kind::RParen
                        && final(self).index == old(self).index,
                    Some(st) => old(self).toks()[old(self).index as int].kind != Kind::RParen
                        && exists|sh: Shape| #[trigger] simple(old(self).toks(), old(self).index as int, st, final(self).index as int, sh),
                }
            }),
            steps(*old(self), *final(self)),
            grows(old(diagnostics)@, final(diagnostics)@),
            r is None ==> error_count(old(diagnostics)@) < error_count(final(diagnostics)@),
            expect_semicolon ==> forall|init: Option<Stmt>, a: int, sh: Shape|
                #[trigger] crate::grammar::for_init(old(self).toks(), old(self).index as int, init, a, sh)
                    ==> (r matches Some(x) && crate::readings::same_opt_stmt(x, init)) && final(self).index == a
                    && final(diagnostics)@ == old(diagnostics)@,
            !expect_semicolon && old(self).cur().kind == Kind::RParen ==> r == Some(None::<Stmt>)
                && final(self).index == old(self).index && final(diagnostics)@ == old(diagnostics)@,
            !expect_semicolon ==> forall|st: Stmt, c: int, sh: Shape|
                #[trigger] simple(old(self).toks(), old(self).index as int, st, c, sh) ==> (r matches Some(x)
                    && crate::readings::same_opt_stmt(x, Some(st))) && final(self).index == c
                    && final(diagnostics)@ == old(diagnostics)@,
            !expect_semicolon && old(self).cur().kind == Kind::Let && (old(self).toks()[old(self).index + 1].kind
                == Kind::Colon ==> old(self).toks()[old(self).index + 2].kind is Identifier)
                && !crate::grammar::names_other_declaration(old(self).toks()[crate::grammar::after_let_head(
                old(self).toks(),
                old(self).index as int,
            )].kind) ==> r is None && final(diagnostics)@ == old(diagnostics)@.push(error_at(Some(old(self).cur().span),
                "for update clause cannot contain let-declaration"@)),
        decreases old(self).tokens@.len() - old(self).index, 31int,
    {
        let ghost i0 = self.index as int;
        let ghost d0 = diagnostics@;
        let ghost p0 = *self;
        if expect_semicolon {
            if self.check(TAG_SEMICOLON) {
                self.advance();
                proof {
                    assert(crate::grammar::for_init(self.toks(), i0, None, self.index as int, Shape::Leaf));
                }
                return Some(None);
            }
        } else if self.check(TAG_R_PAREN) {
            proof {
                assert forall|st: Stmt, c: int, sh: Shape| #[trigger] simple(p0.toks(), i0, st, c, sh) implies false by {
                    crate::readings::lemma_simple_parts(p0.toks(), i0, st, c, sh);
                }
            }
            return Some(None);
        }

        if self.check(TAG_LET) {
            let let_token = self.advance();
            let entitlement = if self.consume_if(TAG_COLON) {
                match self.expect_identifier("Expected entitlement name after ':'", diagnostics) {
                    Some(n) => Some(n),
                    None => {
                        proof {
                            assert forall|init: Option<Stmt>, a: int, sh: Shape| expect_semicolon && #[trigger] crate::grammar::for_init(p0.toks(), i0, init, a, sh) implies false by {
                                match (init, sh) {
                                    (Some(Stmt::VarDecl(dd)), Shape::Split(k, sd, _)) => {
                                        
                                    },
                                    _ => {},
                                }
                            }
                            assert forall|st: Stmt, c: int, sh: Shape| !expect_semicolon && #[trigger] simple(p0.toks(), i0, st, c, sh) implies false by {
                                crate::readings::lemma_simple_parts(p0.toks(), i0, st, c, sh);
                            }
                        }
                        return None;
                    },
                }
            } else {
                None
            };
            if self.check(TAG_FUNC) || self.check_identifier_text("capability")
                || self.check_identifier_text("right") {
                proof {
                    assert forall|init: Option<Stmt>, a: int, sh: Shape| expect_semicolon && #[trigger] crate::grammar::for_init(p0.toks(), i0, init, a, sh) implies false by {
                        match (init, sh) {
                            (Some(Stmt::VarDecl(dd)), Shape::Split(k, sd, _)) => {
                                
                            },
                            _ => {},
                        }
                    }
                    assert forall|st: Stmt, c: int, sh: Shape| !expect_semicolon && #[trigger] simple(p0.toks(), i0, st, c, sh) implies false by {
                        crate::readings::lemma_simple_parts(p0.toks(), i0, st, c, sh);
                    }
                }
                diagnostics.error(
                    Some(let_token.span),
                    string_of("Only variable declarations with let are allowed in for-clause"),
                );
                return None;
            }
            if !expect_semicolon {
                proof {
                    assert forall|init: Option<Stmt>, a: int, sh: Shape| expect_semicolon && #[trigger] crate::grammar::for_init(p0.toks(), i0, init, a, sh) implies false by {
                        match (init, sh) {
                            (Some(Stmt::VarDecl(dd)), Shape::Split(k, sd, _)) => {
                                
                            },
                            _ => {},
                        }
                    }
                    assert forall|st: Stmt, c: int, sh: Shape| !expect_semicolon && #[trigger] simple(p0.toks(), i0, st, c, sh) implies false by {
                        crate::readings::lemma_simple_parts(p0.toks(), i0, st, c, sh);
                    }
                }
                diagnostics.error(
                    Some(let_token.span),
                    string_of("for update clause cannot contain let-declaration"),
                );
                return None;
            }
            let ghost a = self.index as int;
            let ghost d1 = diagnostics@;
            let ghost sa = *self;
            proof {
                assert(sa.toks() == p0.toks());
            }
            let errors_before = diagnostics.errors_count();
            let explicit_type = self.parse_type_annotation(diagnostics);
            let ghost d2 = diagnostics@;
            let name = match self.expect_identifier("Expected variable name", diagnostics) {
                Some(n) => n,
                None => {
                    proof {
                        assert forall|init: Option<Stmt>, a: int, sh: Shape| expect_semicolon && #[trigger] crate::grammar::for_init(p0.toks(), i0, init, a, sh) implies false by {
                            match (init, sh) {
                                (Some(Stmt::VarDecl(dd)), Shape::Split(k, sd, _)) => {
                                    assert(crate::grammar::annotation(sa.toks(), sa.index as int, dd.explicit_type));
                                },
                                _ => {},
                            }
                        }
                        assert forall|st: Stmt, c: int, sh: Shape| !expect_semicolon && #[trigger] simple(p0.toks(), i0, st, c, sh) implies false by {
                            crate::readings::lemma_simple_parts(p0.toks(), i0, st, c, sh);
                        }
                    }
                    return None;
                },
            };
            if self.expect(TAG_ASSIGN, "Expected '=' in variable declaration", diagnostics).is_none() {
                proof {
                    assert forall|init: Option<Stmt>, a: int, sh: Shape| expect_semicolon && #[trigger] crate::grammar::for_init(p0.toks(), i0, init, a, sh) implies false by {
                        match (init, sh) {
                            (Some(Stmt::VarDecl(dd)), Shape::Split(k, sd, _)) => {
                                assert(crate::grammar::annotation(sa.toks(), sa.index as int, dd.explicit_type));
                            },
                            _ => {},
                        }
                    }
                    assert forall|st: Stmt, c: int, sh: Shape| !expect_semicolon && #[trigger] simple(p0.toks(), i0, st, c, sh) implies false by {
                        crate::readings::lemma_simple_parts(p0.toks(), i0, st, c, sh);
                    }
                }
                return None;
            }
            let ghost n = self.index - 2;
            let ghost sn = *self;
            proof {
                assert(sn.toks() == p0.toks());
            }
            let initializer = match self.parse_expression(diagnostics) {
                Some(e) => e,
                None => {
                    proof {
                        assert forall|init: Option<Stmt>, a: int, sh: Shape| expect_semicolon && #[trigger] crate::grammar::for_init(p0.toks(), i0, init, a, sh) implies false by {
                            match (init, sh) {
                                (Some(Stmt::VarDecl(dd)), Shape::Split(k, sd, _)) => {
                                    assert(crate::grammar::annotation(sa.toks(), sa.index as int, dd.explicit_type));
                                    assert(reading(sn.toks(), 0, sn.index as int, dd.initializer, k));
                                },
                                _ => {},
                            }
                        }
                        assert forall|st: Stmt, c: int, sh: Shape| !expect_semicolon && #[trigger] simple(p0.toks(), i0, st, c, sh) implies false by {
                            crate::readings::lemma_simple_parts(p0.toks(), i0, st, c, sh);
                        }
                    }
                    return None;
                },
            };
            let ghost k = self.index as int;
            if self.expect(TAG_SEMICOLON, "Expected ';' after for init declaration", diagnostics).is_none() {
                proof {
                    assert forall|init: Option<Stmt>, a: int, sh: Shape| expect_semicolon && #[trigger] crate::grammar::for_init(p0.toks(), i0, init, a, sh) implies false by {
                        match (init, sh) {
                            (Some(Stmt::VarDecl(dd)), Shape::Split(k, sd, _)) => {
                                assert(crate::grammar::annotation(sa.toks(), sa.index as int, dd.explicit_type));
                                assert(reading(sn.toks(), 0, sn.index as int, dd.initializer, k));
                            },
                            _ => {},
                        }
                    }
                    assert forall|st: Stmt, c: int, sh: Shape| !expect_semicolon && #[trigger] simple(p0.toks(), i0, st, c, sh) implies false by {
                        crate::readings::lemma_simple_parts(p0.toks(), i0, st, c, sh);
                    }
                }
                return None;
            }
            if explicit_type.is_none() {
                if diagnostics.errors_count() == errors_before {
                    diagnostics.error(Some(let_token.span), string_of("Expected type in variable declaration"));
                }
                proof {
                    assert forall|init: Option<Stmt>, a: int, sh: Shape| expect_semicolon && #[trigger] crate::grammar::for_init(p0.toks(), i0, init, a, sh) implies false by {
                        match (init, sh) {
                            (Some(Stmt::VarDecl(dd)), Shape::Split(k, sd, _)) => {
                                assert(crate::grammar::annotation(sa.toks(), sa.index as int, dd.explicit_type));
                            },
                            _ => {},
                        }
                    }
                    assert forall|st: Stmt, c: int, sh: Shape| !expect_semicolon && #[trigger] simple(p0.toks(), i0, st, c, sh) implies false by {
                        crate::readings::lemma_simple_parts(p0.toks(), i0, st, c, sh);
                    }
                }
                return None;
            }
            let decl = VarDecl {
                name,
                explicit_type,
                initializer,
                entitlement,
                span: let_token.span,
            };
            proof {
                if clean(d0, diagnostics@) {
                    assert(clean(d1, d2));
                    let ts = self.toks();
                    assert(ts[i0].kind == Kind::Let);
                    assert(a == crate::grammar::after_let_head(ts, i0));
                    assert(!crate::grammar::names_other_declaration(ts[a].kind));
                    assert(n == a + crate::grammar::annotation_width(decl.explicit_type));
                    assert(ts[n].kind == Kind::Identifier(decl.name@));
                    assert(ts[n + 1].kind == Kind::Assign);
                    assert(ts[k].kind == Kind::Semicolon);
                    let sd = choose|sh: Shape| #[trigger] derivation(ts, 0, n + 2, decl.initializer, k, sh);
                    assert(declares(ts, a, decl, k, sd));
                    assert(crate::grammar::variable_declaration(ts, i0, decl, k, sd, false));
                    assert(crate::grammar::for_init(ts, i0, Some(Stmt::VarDecl(decl)), self.index as int, Shape::Split(k, Box::new(sd), Box::new(Shape::Leaf))));
                }
                assert forall|init: Option<Stmt>, a2: int, sh: Shape| #[trigger] crate::grammar::for_init(p0.toks(), i0, init, a2, sh) implies crate::readings::same_opt_stmt(
                    Some(Stmt::VarDecl(decl)),
                    init,
                ) && self.index == a2 && diagnostics@ == d0 by {
                    match (init, sh) {
                        (Some(Stmt::VarDecl(dd)), Shape::Split(k2, sd, _)) => {
                            assert(crate::grammar::annotation(sa.toks(), sa.index as int, dd.explicit_type));
                            assert(reading(sn.toks(), 0, sn.index as int, dd.initializer, k2));
                        },
                        _ => {},
                    }
                }
            }
            return Some(Some(Stmt::VarDecl(decl)));
        }

        let ghost s1 = *self;
        proof {
            assert(s1.toks() == p0.toks());
        }
        let expr = match self.parse_expression(diagnostics) {
            Some(e) => e,
            None => {
                proof {
                    assert forall|init: Option<Stmt>, a: int, sh: Shape| expect_semicolon && #[trigger] crate::grammar::for_init(p0.toks(), i0, init, a, sh) implies false by {
                        match (init, sh) {
                            (Some(st), Shape::Split(k, s_1, _)) => {
                                if !(st is VarDecl) {
                                    let m0 = crate::readings::lemma_simple_parts(p0.toks(), i0, st, k, *s_1);
                                    match st {
                                        Stmt::Assign { target, span, .. } => {
                                            assert(reading(s1.toks(), 0, i0, crate::grammar::target_expr(target, span), m0));
                                        },
                                        Stmt::Expr { expr, .. } => {
                                            assert(reading(s1.toks(), 0, i0, expr, k));
                                        },
                                        _ => {},
                                    }
                                }
                            },
                            _ => {},
                        }
                    }
                    assert forall|st: Stmt, c: int, sh: Shape| !expect_semicolon && #[trigger] simple(p0.toks(), i0, st, c, sh) implies false by {
                        let m0 = crate::readings::lemma_simple_parts(p0.toks(), i0, st, c, sh);
                        match st {
                            Stmt::Assign { target, span, .. } => {
                                assert(reading(s1.toks(), 0, i0, crate::grammar::target_expr(target, span), m0));
                            },
                            Stmt::Expr { expr, .. } => {
                                assert(reading(s1.toks(), 0, i0, expr, c));
                            },
                            _ => {},
                        }
                    }
                }
                return None;
            },
        };
        let ghost m = self.index as int;
        let ghost lhs = expr;
        let ghost d3 = diagnostics@;
        let statement = if self.consume_if(TAG_ASSIGN) {
            let span = expr.span();
            let target = match expression_to_assign_target(expr) {
                Some(t) => t,
                None => {
                    proof {
                        assert forall|st: Stmt, c: int, sh: Shape| #[trigger] simple(p0.toks(), i0, st, c, sh) implies false by {
                            let m0 = crate::readings::lemma_simple_parts(p0.toks(), i0, st, c, sh);
                            match st {
                                Stmt::Assign { target, span, .. } => {
                                    assert(reading(s1.toks(), 0, i0, crate::grammar::target_expr(target, span), m0));
                                },
                                Stmt::Expr { expr, .. } => {
                                    assert(reading(s1.toks(), 0, i0, expr, c));
                                },
                                _ => {},
                            }
                        }
                        assert forall|init: Option<Stmt>, a: int, sh: Shape| expect_semicolon && #[trigger] crate::grammar::for_init(p0.toks(), i0, init, a, sh) implies false by {
                            match (init, sh) {
                                (Some(st), Shape::Split(k, s_1, _)) => {
                                    if !(st is VarDecl) {
                                        assert(simple(p0.toks(), i0, st, k, *s_1));
                                    }
                                },
                                _ => {},
                            }
                        }
                    }
                    diagnostics.error(Some(span), string_of("Invalid assignment target in for-clause"));
                    return None;
                },
            };
            let ghost s2 = *self;
            proof {
                assert(s2.toks() == p0.toks());
            }
            let value = match self.parse_expression(diagnostics) {
                Some(e) => e,
                None => {
                    proof {
                        assert forall|st: Stmt, c: int, sh: Shape| #[trigger] simple(p0.toks(), i0, st, c, sh) implies false by {
                            let m0 = crate::readings::lemma_simple_parts(p0.toks(), i0, st, c, sh);
                            match st {
                                Stmt::Assign { target, span, .. } => {
                                    assert(reading(s1.toks(), 0, i0, crate::grammar::target_expr(target, span), m0));
                                    assert(reading(s2.toks(), 0, s2.index as int, st->Assign_value, c));
                                },
                                Stmt::Expr { expr, .. } => {
                                    assert(reading(s1.toks(), 0, i0, expr, c));
                                },
                                _ => {},
                            }
                        }
                        assert forall|init: Option<Stmt>, a: int, sh: Shape| expect_semicolon && #[trigger] crate::grammar::for_init(p0.toks(), i0, init, a, sh) implies false by {
                            match (init, sh) {
                                (Some(st), Shape::Split(k, s_1, _)) => {
                                    if !(st is VarDecl) {
                                        assert(simple(p0.toks(), i0, st, k, *s_1));
                                    }
                                },
                                _ => {},
                            }
                        }
                    }
                    return None;
                },
            };
            let ghost g_target = target;
            let st = Stmt::Assign { target, value, span };
            proof {
                let ts = self.toks();
                let k = self.index as int;
                assert(ts[m].kind == Kind::Assign);
                let sl = choose|sh: Shape| #[trigger] derivation(ts, 0, i0, lhs, m, sh);
                let sv = choose|sh: Shape| #[trigger] derivation(ts, 0, m + 1, value, k, sh);
                assert(simple(ts, i0, st, k, Shape::Split(m, Box::new(sl), Box::new(sv))));
                assert forall|st2: Stmt, c: int, sh: Shape| #[trigger] simple(p0.toks(), i0, st2, c, sh) implies same_stmt(st, st2)
                    && self.index == c && diagnostics@ == d0 by {
                    let m0 = crate::readings::lemma_simple_parts(p0.toks(), i0, st2, c, sh);
                    match st2 {
                        Stmt::Assign { target: t2, span: sp2, value: v2 } => {
                            assert(reading(s1.toks(), 0, i0, crate::grammar::target_expr(t2, sp2), m0));
                            assert(reading(s2.toks(), 0, s2.index as int, v2, c));
                            crate::readings::lemma_same_target(g_target, expr_span(lhs), t2, sp2);
                        },
                        Stmt::Expr { expr: e2, .. } => {
                            assert(reading(s1.toks(), 0, i0, e2, c));
                        },
                        _ => {},
                    }
                }
            }
            st
        } else {
            let span = expr.span();
            let st = Stmt::Expr { expr, span };
            proof {
                let ts = self.toks();
                let sx = choose|sh: Shape| #[trigger] derivation(ts, 0, i0, lhs, m, sh);
                assert(simple(ts, i0, st, m, sx));
                assert forall|st2: Stmt, c: int, sh: Shape| #[trigger] simple(p0.toks(), i0, st2, c, sh) implies same_stmt(st, st2)
                    && self.index == c && diagnostics@ == d0 by {
                    let m0 = crate::readings::lemma_simple_parts(p0.toks(), i0, st2, c, sh);
                    match st2 {
                        Stmt::Assign { target: t2, span: sp2, .. } => {
                            assert(reading(s1.toks(), 0, i0, crate::grammar::target_expr(t2, sp2), m0));
                        },
                        Stmt::Expr { expr: e2, .. } => {
                            assert(reading(s1.toks(), 0, i0, e2, c));
                            crate::readings::lemma_same_symmetric(lhs, e2);
                        },
                        _ => {},
                    }
                }
            }
            st
        };
        let ghost k = self.index as int;
        proof {
            assert(exists|sh: Shape| #[trigger] simple(self.toks(), i0, statement, k, sh));
        }
        if expect_semicolon {
            if self.expect(TAG_SEMICOLON, "Expected ';' after for init clause", diagnostics).is_none() {
                proof {
                    assert forall|init: Option<Stmt>, a: int, sh: Shape| #[trigger] crate::grammar::for_init(p0.toks(), i0, init, a, sh) implies false by {
                        match (init, sh) {
                            (Some(st), Shape::Split(k2, s_1, _)) => {
                                if !(st is VarDecl) {
                                    assert(simple(p0.toks(), i0, st, k2, *s_1));
                                }
                            },
                            _ => {},
                        }
                    }
                }
                return None;
            }
            proof {
                let ts = self.toks();
                let sx = choose|sh: Shape| #[trigger] simple(ts, i0, statement, k, sh);
                assert(ts[k].kind == Kind::Semicolon);
                assert(crate::grammar::for_init(ts, i0, Some(statement), self.index as int, Shape::Split(k, Box::new(sx), Box::new(Shape::Leaf))));
                assert forall|init: Option<Stmt>, a: int, sh: Shape| #[trigger] crate::grammar::for_init(p0.toks(), i0, init, a, sh) implies crate::readings::same_opt_stmt(
                    Some(statement),
                    init,
                ) && self.index == a && diagnostics@ == d0 by {
                    match (init, sh) {
                        (Some(st), Shape::Split(k2, s_1, _)) => {
                            if !(st is VarDecl) {
                                assert(simple(p0.toks(), i0, st, k2, *s_1));
                            }
                        },
                        _ => {},
                    }
                }
            }
        }
        Some(Some(statement))
    }

    fn parse_variable_decl_from_current(
        &mut self,
        span: Span,
        entitlement: Option<String>,
        diagnostics: &mut Diagnostics,
    ) -> (r: Option<VarDecl>)
        requires
            old(self).wf(),
        ensures
            r matches Some(d) ==> d.span == span && d.entitlement == entitlement,
            r matches Some(d) ==> (clean(old(diagnostics)@, final(diagnostics)@) ==> exists|k: int, sh: Shape|
                #[trigger] declares(old(self).toks(), old(self).index as int, d, k, sh) && k < old(self).toks().len()
                    && final(self).index == ends(old(self).toks(), k)),
            steps(*old(self), *final(self)),
            grows(old(diagnostics)@, final(diagnostics)@),
            r is None ==> error_count(old(diagnostics)@) < error_count(final(diagnostics)@),
            old(self).movable() ==> old(self).index < final(self).index,
            forall|d: VarDecl, k: int, sh: Shape|
                #[trigger] declares(old(self).toks(), old(self).index as int, d, k, sh) ==> (r matches Some(x)
                    && x.name@ == d.name@ && x.explicit_type == d.explicit_type && same_expr(
                    x.initializer,
                    d.initializer,
                )) && final(self).index == ends(old(self).toks(), k) && final(diagnostics)@ == old(
                    diagnostics,
                )@,
        decreases old(self).tokens@.len() - old(self).index, 30int,
    {
        let ghost i0 = self.index as int;
        let ghost d0 = diagnostics@;
        let errors_before = diagnostics.errors_count();
        let explicit_type = self.parse_type_annotation(diagnostics);
        let ghost d1 = diagnostics@;
        let name = match self.expect_identifier("Expected variable name", diagnostics) {
            Some(n) => n,
            None => {
                proof {
                    assert forall|d: VarDecl, k: int, sh: Shape| #[trigger] declares(old(self).toks(), i0, d, k, sh) implies false by {
                        assert(crate::grammar::annotation(old(self).toks(), i0, d.explicit_type));
                    }
                }
                return None;
            },
        };
        if self.expect(TAG_ASSIGN, "Expected '=' in variable declaration", diagnostics).is_none() {
            proof {
                assert forall|d: VarDecl, k: int, sh: Shape| #[trigger] declares(old(self).toks(), i0, d, k, sh) implies false by {
                    assert(crate::grammar::annotation(old(self).toks(), i0, d.explicit_type));
                }
            }
            return None;
        }
        let ghost n = self.index - 2;
        let ghost s1 = *self;
        let initializer = match self.parse_expression(diagnostics) {
            Some(e) => e,
            None => {
                proof {
                    assert forall|d: VarDecl, k: int, sh: Shape| #[trigger] declares(old(self).toks(), i0, d, k, sh) implies false by {
                        assert(crate::grammar::annotation(old(self).toks(), i0, d.explicit_type));
                        assert(reading(s1.toks(), 0, s1.index as int, d.initializer, k));
                    }
                }
                return None;
            },
        };
        let ghost k = self.index as int;
        self.consume_if(TAG_SEMICOLON);
        if explicit_type.is_none() {
            if diagnostics.errors_count() == errors_before {
                diagnostics.error(Some(span), string_of("Expected type in variable declaration"));
            }
            proof {
                assert forall|d: VarDecl, k: int, sh: Shape| #[trigger] declares(old(self).toks(), i0, d, k, sh) implies false by {
                    assert(crate::grammar::annotation(old(self).toks(), i0, d.explicit_type));
                }
            }
            return None;
        }
        let decl = VarDecl { name, explicit_type, initializer, entitlement, span };
        proof {
            if clean(d0, diagnostics@) {
                assert(clean(d0, d1));
                let ts = self.toks();
                assert(n == i0 + crate::grammar::annotation_width(decl.explicit_type));
                assert(ts[n].kind == Kind::Identifier(decl.name@));
                assert(ts[n + 1].kind == Kind::Assign);
                let sh = choose|sh: Shape| #[trigger] derivation(ts, 0, n + 2, decl.initializer, k, sh);
                assert(declares(ts, i0, decl, k, sh));
                assert(self.index == ends(ts, k));
            }
            assert forall|d: VarDecl, k2: int, sh: Shape| #[trigger] declares(old(self).toks(), i0, d, k2, sh) implies decl.name@ == d.name@
                && decl.explicit_type == d.explicit_type && same_expr(decl.initializer, d.initializer)
                && self.index == ends(old(self).toks(), k2) && diagnostics@ == d0 by {
                assert(crate::grammar::annotation(old(self).toks(), i0, d.explicit_type));
                assert(reading(s1.toks(), 0, s1.index as int, d.initializer, k2));
            }
        }
        Some(decl)
    }

    fn parse_type_annotation(&mut self, diagnostics: &mut Diagnostics) -> (r: Option<ValueType>)
        requires
            old(self).wf(),
        ensures
            steps(*old(self), *final(self)),
            grows(old(diagnostics)@, final(diagnostics)@),
            r matches Some(t) ==> spells_type(old(self).toks(), old(self).index as int, t)
                && final(self).index == old(self).index + type_width(t),
            r is None && clean(old(diagnostics)@, final(diagnostics)@) ==> annotation(
                old(self).toks(),
                old(self).index as int,
                None,
            ) && final(self).index == old(self).index,
            forall|t: Option<ValueType>|
                #[trigger] annotation(old(self).toks(), old(self).index as int, t) && (t matches Some(v) ==> old(self).index + type_width(v) < old(self).toks().len()
                    && old(self).toks()[old(self).index + type_width(v)].kind != Kind::LBracket) ==> r == t
                    && final(self).index == old(self).index + crate::grammar::annotation_width(t)
                    && final(diagnostics)@ == old(diagnostics)@,
    {
        let ghost p0 = *self;
        let ghost d0 = diagnostics@;
        let tag = self.current_tag();
        let base = if tag == TAG_INT_TYPE {
            Some(ValueType::Int)
        } else if tag == TAG_FLOAT_TYPE {
            Some(ValueType::Float)
        } else if tag == TAG_STRING_TYPE {
            Some(ValueType::String)
        } else if tag == TAG_BOOL_TYPE {
            Some(ValueType::Bool)
        } else {
            None
        };
        let mut result = match base {
            Some(t) => t,
            None => {
                proof {
                    assert forall|t: Option<ValueType>| #[trigger] annotation(p0.toks(), p0.index as int, t) && (t matches Some(v) ==> p0.index + type_width(v) < p0.toks().len() && p0.toks()[p0.index + type_width(v)].kind != Kind::LBracket) implies t is None by {
                        if let Some(v) = t {
                            crate::readings::lemma_spelled_base(p0.toks(), p0.index as int, v);
                        }
                    }
                }
                return None;
            },
        };
        proof {
            assert(crate::grammar::type_keyword(self.toks()[self.index as int].kind) == Some(result));
        }
        self.advance();
        proof {
            assert forall|t: Option<ValueType>| #[trigger] annotation(p0.toks(), p0.index as int, t) && (t matches Some(v) ==> p0.index + type_width(v) < p0.toks().len() && p0.toks()[p0.index + type_width(v)].kind != Kind::LBracket) implies (t matches Some(v) && crate::readings::wraps(v, result)) by {
                if let Some(v) = t {
                    crate::readings::lemma_spelled_base(p0.toks(), p0.index as int, v);
                } else {
                    assert(crate::grammar::type_keyword(p0.toks()[p0.index as int].kind) is None);
                }
            }
        }
        while self.consume_if(TAG_L_BRACKET)
            invariant
                steps(p0, *self),
                grows(d0, diagnostics@),
                p0 == *old(self),
                d0 == old(diagnostics)@,
                spells_type(p0.toks(), p0.index as int, result),
                self.index == p0.index + type_width(result),
                forall|t: Option<ValueType>| #[trigger] annotation(p0.toks(), p0.index as int, t) && (t matches Some(v) ==> p0.index + type_width(v) < p0.toks().len() && p0.toks()[p0.index + type_width(v)].kind != Kind::LBracket) ==> (t matches Some(v) && crate::readings::wraps(v, result)) && diagnostics@ == d0,
            decreases self.tokens@.len() - self.index,
        {
            let ghost k = self.index - 1;
            if self.expect(TAG_R_BRACKET, "Expected ']' in array type declaration", diagnostics).is_none() {
                proof {
                    assert forall|t: Option<ValueType>| #[trigger] annotation(p0.toks(), p0.index as int, t) && (t matches Some(v) ==> p0.index + type_width(v) < p0.toks().len() && p0.toks()[p0.index + type_width(v)].kind != Kind::LBracket) implies false by {
                        let v = t->0;
                        crate::readings::lemma_spelled_step(p0.toks(), p0.index as int, v, result);
                    }
                }
                return None;
            }
            let ghost before = result;
            proof {
                assert(p0.toks()[k].kind == Kind::LBracket);
                assert(p0.toks()[k + 1].kind == Kind::RBracket);
            }
            result = ValueType::Array(Box::new(result));
            proof {
                assert forall|t: Option<ValueType>| #[trigger] annotation(p0.toks(), p0.index as int, t) && (t matches Some(v) ==> p0.index + type_width(v) < p0.toks().len() && p0.toks()[p0.index + type_width(v)].kind != Kind::LBracket) implies (t matches Some(v) && crate::readings::wraps(v, result)) by {
                    let v = t->0;
                    crate::readings::lemma_spelled_step(p0.toks(), p0.index as int, v, before);
                }
            }
        }
        proof {
            assert forall|t: Option<ValueType>| #[trigger] annotation(p0.toks(), p0.index as int, t) && (t matches Some(v) ==> p0.index + type_width(v) < p0.toks().len() && p0.toks()[p0.index + type_width(v)].kind != Kind::LBracket) implies Some(result) == t
                && self.index == p0.index + crate::grammar::annotation_width(t) && diagnostics@ == d0 by {
                let v = t->0;
                if v != result {
                    crate::readings::lemma_spelled_step(p0.toks(), p0.index as int, v, result);
                }
            }
        }
        Some(result)
    }

    fn parse_expression(&mut self, diagnostics: &mut Diagnostics) -> (r: Option<Expr>)
        requires
            old(self).wf(),
        ensures
            r matches Some(e) ==> derives(old(self).toks(), 0, old(self).index as int, e, final(self).index as int)
                && !continues(0, old(self).toks()[final(self).index as int].kind),
            steps(*old(self), *final(self)),
            grows(old(diagnostics)@, final(diagnostics)@),
            r is None ==> error_count(old(diagnostics)@) < error_count(final(diagnostics)@),
            old(self).movable() ==> old(self).index < final(self).index,
            r matches Some(e) ==> expr_strings_below(e, old(self).bound()),
            forall|e: Expr, j: int|
                #[trigger] reading(old(self).toks(), 0, old(self).index as int, e, j) ==> gives(
                    r,
                    final(self).index as int,
                    old(diagnostics)@,
                    final(diagnostics)@,
                    e,
                    j,
                ),
        decreases old(self).tokens@.len() - old(self).index, 28int,
    {
        self.parse_ternary(diagnostics)
    }

    fn parse_ternary(&mut self, diagnostics: &mut Diagnostics) -> (r: Option<Expr>)
        requires
            old(self).wf(),
        ensures
            r matches Some(e) ==> derives(old(self).toks(), 0, old(self).index as int, e, final(self).index as int)
                && !continues(0, old(self).toks()[final(self).index as int].kind),
            steps(*old(self), *final(self)),
            grows(old(diagnostics)@, final(diagnostics)@),
            r is None ==> error_count(old(diagnostics)@) < error_count(final(diagnostics)@),
            old(self).movable() ==> old(self).index < final(self).index,
            r matches Some(e) ==> expr_strings_below(e, old(self).bound()),
            forall|e: Expr, j: int|
                #[trigger] reading(old(self).toks(), 0, old(self).index as int, e, j) ==> gives(
                    r,
                    final(self).index as int,
                    old(diagnostics)@,
                    final(diagnostics)@,
                    e,
                    j,
                ),
        decreases old(self).tokens@.len() - old(self).index, 27int,
    {
        let ghost p0 = *self;
        let ghost d0 = diagnostics@;
        let ghost i0 = self.index as int;
        let condition = match self.parse_or(diagnostics) {
            Some(e) => e,
            None => {
                proof {
                    assert forall|e: Expr, j: int| #[trigger] reading(p0.toks(), 0, i0, e, j) implies false by {
                        crate::readings::lemma_conditional_reading(p0.toks(), i0, e, j);
                    }
                }
                return None;
            },
        };
        let ghost k = self.index as int;
        if !self.consume_if(TAG_QUESTION) {
            proof {
                crate::grammar::lemma_loosen(self.toks(), 1, i0, condition, k);
                assert forall|e: Expr, j: int| #[trigger] reading(p0.toks(), 0, i0, e, j) implies gives(Some(condition), self.index as int, d0, diagnostics@, e, j) by {
                    crate::readings::lemma_conditional_reading(p0.toks(), i0, e, j);
                }
            }
            return Some(condition);
        }
        let then_expr = match self.parse_expression(diagnostics) {
            Some(e) => e,
            None => {
                proof {
                    assert forall|e: Expr, j: int| #[trigger] reading(p0.toks(), 0, i0, e, j) implies false by {
                        crate::readings::lemma_conditional_reading(p0.toks(), i0, e, j);
                    }
                }
                return None;
            },
        };
        let ghost m = self.index as int;
        if self.expect(TAG_COLON, "Expected ':' in ternary operator", diagnostics).is_none() {
            proof {
                assert forall|e: Expr, j: int| #[trigger] reading(p0.toks(), 0, i0, e, j) implies false by {
                    crate::readings::lemma_conditional_reading(p0.toks(), i0, e, j);
                }
            }
            return None;
        }
        let else_expr = match self.parse_expression(diagnostics) {
            Some(e) => e,
            None => {
                proof {
                    assert forall|e: Expr, j: int| #[trigger] reading(p0.toks(), 0, i0, e, j) implies false by {
                        crate::readings::lemma_conditional_reading(p0.toks(), i0, e, j);
                    }
                }
                return None;
            },
        };
        proof {
            assert(self.toks()[k].kind == Kind::Question);
            assert(self.toks()[m].kind == Kind::Colon);
            crate::grammar::lemma_conditional(self.toks(), i0, condition, k, then_expr, m, else_expr, self.index as int);
        }
        let span = condition.span();
        let result = Expr::Ternary {
            condition: Box::new(condition),
            then_expr: Box::new(then_expr),
            else_expr: Box::new(else_expr),
            span,
        };
        proof {
            assert forall|e: Expr, j: int| #[trigger] reading(p0.toks(), 0, i0, e, j) implies gives(Some(result), self.index as int, d0, diagnostics@, e, j) by {
                crate::readings::lemma_conditional_reading(p0.toks(), i0, e, j);
                match e {
                    Expr::Ternary { condition: c, .. } => {
                        crate::readings::lemma_same_symmetric(condition, *c);
                    },
                    _ => {},
                }
            }
        }
        Some(result)
    }

    fn parse_or(&mut self, diagnostics: &mut Diagnostics) -> (r: Option<Expr>)
        requires
            old(self).wf(),
        ensures
            r matches Some(e) ==> derives(old(self).toks(), 1, old(self).index as int, e, final(self).index as int)
                && !continues(1, old(self).toks()[final(self).index as int].kind),
            steps(*old(self), *final(self)),
            grows(old(diagnostics)@, final(diagnostics)@),
            r is None ==> error_count(old(diagnostics)@) < error_count(final(diagnostics)@),
            old(self).movable() ==> old(self).index < final(self).index,
            r matches Some(e) ==> expr_strings_below(e, old(self).bound()),
            forall|e: Expr, j: int|
                #[trigger] reading(old(self).toks(), 1, old(self).index as int, e, j) ==> gives(
                    r,
                    final(self).index as int,
                    old(diagnostics)@,
                    final(diagnostics)@,
                    e,
                    j,
                ),
        decreases old(self).tokens@.len() - old(self).index, 26int,
    {
        let ghost p0 = *self;
        let ghost d0 = diagnostics@;
        let mut expr = match self.parse_and(diagnostics) {
            Some(e) => e,
            None => {
                proof {
                    assert forall|e: Expr, j: int| #[trigger] reading(p0.toks(), 1, p0.index as int, e, j) implies false by {
                        crate::readings::lemma_chain_start(p0.toks(), 1, p0.index as int, e, j);
                    }
                }
                return None;
            },
        };
        proof {
            assert forall|e: Expr, j: int| #[trigger] reading(p0.toks(), 1, p0.index as int, e, j) implies crate::readings::chains(
                p0.toks(),
                1,
                expr,
                self.index as int,
                e,
                j,
            ) && diagnostics@ == d0 by {
                let b = crate::readings::lemma_chain_start(p0.toks(), 1, p0.index as int, e, j);
                crate::readings::lemma_chain_same(p0.toks(), 1, b.0, expr, b.1, e, j);
            }
            crate::grammar::lemma_loosen(p0.toks(), 2, p0.index as int, expr, self.index as int);
        }
        while self.consume_if(TAG_OR_OR)
            invariant
                steps(p0, *self),
                grows(d0, diagnostics@),
                p0 == *old(self),
                d0 == old(diagnostics)@,
                p0.movable() ==> p0.index < self.index,
                expr_strings_below(expr, p0.bound()),
                derives(p0.toks(), 1, p0.index as int, expr, self.index as int),
                !continues(2, p0.toks()[self.index as int].kind),
                forall|e: Expr, j: int|
                    #[trigger] reading(p0.toks(), 1, p0.index as int, e, j) ==> crate::readings::chains(
                        p0.toks(),
                        1,
                        expr,
                        self.index as int,
                        e,
                        j,
                    ) && diagnostics@ == d0,
            decreases self.tokens@.len() - self.index,
        {
            let ghost k = self.index - 1;
            let ghost left = expr;
            let right = match self.parse_and(diagnostics) {
                Some(e) => e,
                None => {
                    proof {
                        assert forall|e: Expr, j: int| #[trigger] reading(p0.toks(), 1, p0.index as int, e, j) implies false by {
                            crate::readings::lemma_chain_step(p0.toks(), 1, left, k, e, j);
                        }
                    }
                    return None;
                },
            };
            proof {
                assert(crate::grammar::binary_operator(p0.toks()[k].kind) == Some((1nat, BinaryOp::Or)));
                crate::grammar::lemma_binary(p0.toks(), 1, p0.index as int, left, BinaryOp::Or, right, k, self.index as int);
            }
            let span = expr.span();
            expr = Expr::Binary { left: Box::new(expr), op: BinaryOp::Or, right: Box::new(right), span };
            proof {
                assert forall|e: Expr, j: int| #[trigger] reading(p0.toks(), 1, p0.index as int, e, j) implies crate::readings::chains(
                    p0.toks(),
                    1,
                    expr,
                    self.index as int,
                    e,
                    j,
                ) && diagnostics@ == d0 by {
                    let n = crate::readings::lemma_chain_step(p0.toks(), 1, left, k, e, j);
                    let spelled = Expr::Binary {
                        left: Box::new(left),
                        op: n.0,
                        right: Box::new(n.1),
                        span: expr_span(left),
                    };
                    lemma_same_reflexive(left);
                    assert(same_expr(expr, spelled));
                    crate::readings::lemma_chain_same(p0.toks(), 1, spelled, expr, n.2, e, j);
                }
            }
        }
        proof {
    assert forall|e: Expr, j: int| #[trigger] reading(p0.toks(), 1, p0.index as int, e, j) implies gives(
        Some(expr),
        self.index as int,
        d0,
        diagnostics@,
        e,
        j,
    ) by {
        if !(same_expr(expr, e) && self.index == j) {
            crate::readings::lemma_chain_step(p0.toks(), 1, expr, self.index as int, e, j);
        }
    }
        }
        Some(expr)
    }

    fn parse_and(&mut self, diagnostics: &mut Diagnostics) -> (r: Option<Expr>)
        requires
            old(self).wf(),
        ensures
            r matches Some(e) ==> derives(old(self).toks(), 2, old(self).index as int, e, final(self).index as int)
                && !continues(2, old(self).toks()[final(self).index as int].kind),
            steps(*old(self), *final(self)),
            grows(old(diagnostics)@, final(diagnostics)@),
            r is None ==> error_count(old(diagnostics)@) < error_count(final(diagnostics)@),
            old(self).movable() ==> old(self).index < final(self).index,
            r matches Some(e) ==> expr_strings_below(e, old(self).bound()),
            forall|e: Expr, j: int|
                #[trigger] reading(old(self).toks(), 2, old(self).index as int, e, j) ==> gives(
                    r,
                    final(self).index as int,
                    old(diagnostics)@,
                    final(diagnostics)@,
                    e,
                    j,
                ),
        decreases old(self).tokens@.len() - old(self).index, 25int,
    {
        let ghost p0 = *self;
        let ghost d0 = diagnostics@;
        let mut expr = match self.parse_equality(diagnostics) {
            Some(e) => e,
            None => {
                proof {
                    assert forall|e: Expr, j: int| #[trigger] reading(p0.toks(), 2, p0.index as int, e, j) implies false by {
                        crate::readings::lemma_chain_start(p0.toks(), 2, p0.index as int, e, j);
                    }
                }
                return None;
            },
        };
        proof {
            assert forall|e: Expr, j: int| #[trigger] reading(p0.toks(), 2, p0.index as int, e, j) implies crate::readings::chains(
                p0.toks(),
                2,
                expr,
                self.index as int,
                e,
                j,
            ) && diagnostics@ == d0 by {
                let b = crate::readings::lemma_chain_start(p0.toks(), 2, p0.index as int, e, j);
                crate::readings::lemma_chain_same(p0.toks(), 2, b.0, expr, b.1, e, j);
            }
            crate::grammar::lemma_loosen(p0.toks(), 3, p0.index as int, expr, self.index as int);
        }
        while self.consume_if(TAG_AND_AND)
            invariant
                steps(p0, *self),
                grows(d0, diagnostics@),
                p0 == *old(self),
                d0 == old(diagnostics)@,
                p0.movable() ==> p0.index < self.index,
                expr_strings_below(expr, p0.bound()),
                derives(p0.toks(), 2, p0.index as int, expr, self.index as int),
                !continues(3, p0.toks()[self.index as int].kind),
                forall|e: Expr, j: int|
                    #[trigger] reading(p0.toks(), 2, p0.index as int, e, j) ==> crate::readings::chains(
                        p0.toks(),
                        2,
                        expr,
                        self.index as int,
                        e,
                        j,
                    ) && diagnostics@ == d0,
            decreases self.tokens@.len() - self.index,
        {
            let ghost k = self.index - 1;
            let ghost left = expr;
            let right = match self.parse_equality(diagnostics) {
                Some(e) => e,
                None => {
                    proof {
                        assert forall|e: Expr, j: int| #[trigger] reading(p0.toks(), 2, p0.index as int, e, j) implies false by {
                            crate::readings::lemma_chain_step(p0.toks(), 2, left, k, e, j);
                        }
                    }
                    return None;
                },
            };
            proof {
                assert(crate::grammar::binary_operator(p0.toks()[k].kind) == Some((2nat, BinaryOp::And)));
                crate::grammar::lemma_binary(p0.toks(), 2, p0.index as int, left, BinaryOp::And, right, k, self.index as int);
            }
            let span = expr.span();
            expr = Expr::Binary {
                left: Box::new(expr),
                op: BinaryOp::And,
                right: Box::new(right),
                span,
            };
            proof {
                assert forall|e: Expr, j: int| #[trigger] reading(p0.toks(), 2, p0.index as int, e, j) implies crate::readings::chains(
                    p0.toks(),
                    2,
                    expr,
                    self.index as int,
                    e,
                    j,
                ) && diagnostics@ == d0 by {
                    let n = crate::readings::lemma_chain_step(p0.toks(), 2, left, k, e, j);
                    let spelled = Expr::Binary {
                        left: Box::new(left),
                        op: n.0,
                        right: Box::new(n.1),
                        span: expr_span(left),
                    };
                    lemma_same_reflexive(left);
                    assert(same_expr(expr, spelled));
                    crate::readings::lemma_chain_same(p0.toks(), 2, spelled, expr, n.2, e, j);
                }
            }
        }
        proof {
    assert forall|e: Expr, j: int| #[trigger] reading(p0.toks(), 2, p0.index as int, e, j) implies gives(
        Some(expr),
        self.index as int,
        d0,
        diagnostics@,
        e,
        j,
    ) by {
        if !(same_expr(expr, e) && self.index == j) {
            crate::readings::lemma_chain_step(p0.toks(), 2, expr, self.index as int, e, j);
        }
    }
        }
        Some(expr)
    }

    fn parse_equality(&mut self, diagnostics: &mut Diagnostics) -> (r: Option<Expr>)
        requires
            old(self).wf(),
        ensures
            r matches Some(e) ==> derives(old(self).toks(), 3, old(self).index as int, e, final(self).index as int)
                && !continues(3, old(self).toks()[final(self).index as int].kind),
            steps(*old(self), *final(self)),
            grows(old(diagnostics)@, final(diagnostics)@),
            r is None ==> error_count(old(diagnostics)@) < error_count(final(diagnostics)@),
            old(self).movable() ==> old(self).index < final(self).index,
            r matches Some(e) ==> expr_strings_below(e, old(self).bound()),
            forall|e: Expr, j: int|
                #[trigger] reading(old(self).toks(), 3, old(self).index as int, e, j) ==> gives(
                    r,
                    final(self).index as int,
                    old(diagnostics)@,
                    final(diagnostics)@,
                    e,
                    j,
                ),
        decreases old(self).tokens@.len() - old(self).index, 24int,
    {
        let ghost p0 = *self;
        let ghost d0 = diagnostics@;
        let mut expr = match self.parse_comparison(diagnostics) {
            Some(e) => e,
            None => {
                proof {
                    assert forall|e: Expr, j: int| #[trigger] reading(p0.toks(), 3, p0.index as int, e, j) implies false by {
                        crate::readings::lemma_chain_start(p0.toks(), 3, p0.index as int, e, j);
                    }
                }
                return None;
            },
        };
        proof {
            assert forall|e: Expr, j: int| #[trigger] reading(p0.toks(), 3, p0.index as int, e, j) implies crate::readings::chains(
                p0.toks(),
                3,
                expr,
                self.index as int,
                e,
                j,
            ) && diagnostics@ == d0 by {
                let b = crate::readings::lemma_chain_start(p0.toks(), 3, p0.index as int, e, j);
                crate::readings::lemma_chain_same(p0.toks(), 3, b.0, expr, b.1, e, j);
            }
            crate::grammar::lemma_loosen(p0.toks(), 4, p0.index as int, expr, self.index as int);
        }
        loop
            invariant
                steps(p0, *self),
                grows(d0, diagnostics@),
                p0 == *old(self),
                d0 == old(diagnostics)@,
                p0.movable() ==> p0.index < self.index,
                expr_strings_below(expr, p0.bound()),
                derives(p0.toks(), 3, p0.index as int, expr, self.index as int),
                !continues(4, p0.toks()[self.index as int].kind),
                forall|e: Expr, j: int|
                    #[trigger] reading(p0.toks(), 3, p0.index as int, e, j) ==> crate::readings::chains(
                        p0.toks(),
                        3,
                        expr,
                        self.index as int,
                        e,
                        j,
                    ) && diagnostics@ == d0,
            ensures
                derives(p0.toks(), 3, p0.index as int, expr, self.index as int),
                !continues(3, p0.toks()[self.index as int].kind),
                forall|e: Expr, j: int|
                    #[trigger] reading(p0.toks(), 3, p0.index as int, e, j) ==> gives(Some(expr), self.index as int, d0, diagnostics@, e, j),
            decreases self.tokens@.len() - self.index,
        {
            let ghost k = self.index as int;
            let ghost left = expr;
            let op = if self.consume_if(TAG_EQ_EQ) {
                BinaryOp::Eq
            } else if self.consume_if(TAG_NOT_EQ) {
                BinaryOp::NotEq
            } else {
                proof {
                        assert forall|e: Expr, j: int| #[trigger] reading(p0.toks(), 3, p0.index as int, e, j) implies gives(
                            Some(expr),
                            self.index as int,
                            d0,
                            diagnostics@,
                            e,
                            j,
                        ) by {
                            if !(same_expr(expr, e) && self.index == j) {
                                crate::readings::lemma_chain_step(p0.toks(), 3, expr, self.index as int, e, j);
                            }
                        }
                    }
                break;
            };
            let right = match self.parse_comparison(diagnostics) {
                Some(e) => e,
                None => {
                    proof {
                        assert forall|e: Expr, j: int| #[trigger] reading(p0.toks(), 3, p0.index as int, e, j) implies false by {
                            crate::readings::lemma_chain_step(p0.toks(), 3, left, k, e, j);
                        }
                    }
                    return None;
                },
            };
            proof {
                assert(crate::grammar::binary_operator(p0.toks()[k].kind) == Some((3nat, op)));
                crate::grammar::lemma_binary(p0.toks(), 3, p0.index as int, left, op, right, k, self.index as int);
            }
            let span = expr.span();
            expr = Expr::Binary { left: Box::new(expr), op, right: Box::new(right), span };
            proof {
                assert forall|e: Expr, j: int| #[trigger] reading(p0.toks(), 3, p0.index as int, e, j) implies crate::readings::chains(
                    p0.toks(),
                    3,
                    expr,
                    self.index as int,
                    e,
                    j,
                ) && diagnostics@ == d0 by {
                    let n = crate::readings::lemma_chain_step(p0.toks(), 3, left, k, e, j);
                    let spelled = Expr::Binary {
                        left: Box::new(left),
                        op: n.0,
                        right: Box::new(n.1),
                        span: expr_span(left),
                    };
                    lemma_same_reflexive(left);
                    assert(same_expr(expr, spelled));
                    crate::readings::lemma_chain_same(p0.toks(), 3, spelled, expr, n.2, e, j);
                }
            }
        }
        Some(expr)
    }

    fn parse_comparison(&mut self, diagnostics: &mut Diagnostics) -> (r: Option<Expr>)
        requires
            old(self).wf(),
        ensures
            r matches Some(e) ==> derives(old(self).toks(), 4, old(self).index as int, e, final(self).index as int)
                && !continues(4, old(self).toks()[final(self).index as int].kind),
            steps(*old(self), *final(self)),
            grows(old(diagnostics)@, final(diagnostics)@),
            r is None ==> error_count(old(diagnostics)@) < error_count(final(diagnostics)@),
            old(self).movable() ==> old(self).index < final(self).index,
            r matches Some(e) ==> expr_strings_below(e, old(self).bound()),
            forall|e: Expr, j: int|
                #[trigger] reading(old(self).toks(), 4, old(self).index as int, e, j) ==> gives(
                    r,
                    final(self).index as int,
                    old(diagnostics)@,
                    final(diagnostics)@,
                    e,
                    j,
                ),
        decreases old(self).tokens@.len() - old(self).index, 23int,
    {
        let ghost p0 = *self;
        let ghost d0 = diagnostics@;
        let mut expr = match self.parse_term(diagnostics) {
            Some(e) => e,
            None => {
                proof {
                    assert forall|e: Expr, j: int| #[trigger] reading(p0.toks(), 4, p0.index as int, e, j) implies false by {
                        crate::readings::lemma_chain_start(p0.toks(), 4, p0.index as int, e, j);
                    }
                }
                return None;
            },
        };
        proof {
            assert forall|e: Expr, j: int| #[trigger] reading(p0.toks(), 4, p0.index as int, e, j) implies crate::readings::chains(
                p0.toks(),
                4,
                expr,
                self.index as int,
                e,
                j,
            ) && diagnostics@ == d0 by {
                let b = crate::readings::lemma_chain_start(p0.toks(), 4, p0.index as int, e, j);
                crate::readings::lemma_chain_same(p0.toks(), 4, b.0, expr, b.1, e, j);
            }
            crate::grammar::lemma_loosen(p0.toks(), 5, p0.index as int, expr, self.index as int);
        }
        loop
            invariant
                steps(p0, *self),
                grows(d0, diagnostics@),
                p0 == *old(self),
                d0 == old(diagnostics)@,
                p0.movable() ==> p0.index < self.index,
                expr_strings_below(expr, p0.bound()),
                derives(p0.toks(), 4, p0.index as int, expr, self.index as int),
                !continues(5, p0.toks()[self.index as int].kind),
                forall|e: Expr, j: int|
                    #[trigger] reading(p0.toks(), 4, p0.index as int, e, j) ==> crate::readings::chains(
                        p0.toks(),
                        4,
                        expr,
                        self.index as int,
                        e,
                        j,
                    ) && diagnostics@ == d0,
            ensures
                derives(p0.toks(), 4, p0.index as int, expr, self.index as int),
                !continues(4, p0.toks()[self.index as int].kind),
                forall|e: Expr, j: int|
                    #[trigger] reading(p0.toks(), 4, p0.index as int, e, j) ==> gives(Some(expr), self.index as int, d0, diagnostics@, e, j),
            decreases self.tokens@.len() - self.index,
        {
            let ghost k = self.index as int;
            let ghost left = expr;
            let op = if self.consume_if(TAG_GREATER) {
                BinaryOp::Greater
            } else if self.consume_if(TAG_GREATER_EQ) {
                BinaryOp::GreaterEq
            } else if self.consume_if(TAG_LESS) {
                BinaryOp::Less
            } else if self.consume_if(TAG_LESS_EQ) {
                BinaryOp::LessEq
            } else {
                proof {
                        assert forall|e: Expr, j: int| #[trigger] reading(p0.toks(), 4, p0.index as int, e, j) implies gives(
                            Some(expr),
                            self.index as int,
                            d0,
                            diagnostics@,
                            e,
                            j,
                        ) by {
                            if !(same_expr(expr, e) && self.index == j) {
                                crate::readings::lemma_chain_step(p0.toks(), 4, expr, self.index as int, e, j);
                            }
                        }
                    }
                break;
            };
            let right = match self.parse_term(diagnostics) {
                Some(e) => e,
                None => {
                    proof {
                        assert forall|e: Expr, j: int| #[trigger] reading(p0.toks(), 4, p0.index as int, e, j) implies false by {
                            crate::readings::lemma_chain_step(p0.toks(), 4, left, k, e, j);
                        }
                    }
                    return None;
                },
            };
            proof {
                assert(crate::grammar::binary_operator(p0.toks()[k].kind) == Some((4nat, op)));
                crate::grammar::lemma_binary(p0.toks(), 4, p0.index as int, left, op, right, k, self.index as int);
            }
            let span = expr.span();
            expr = Expr::Binary { left: Box::new(expr), op, right: Box::new(right), span };
            proof {
                assert forall|e: Expr, j: int| #[trigger] reading(p0.toks(), 4, p0.index as int, e, j) implies crate::readings::chains(
                    p0.toks(),
                    4,
                    expr,
                    self.index as int,
                    e,
                    j,
                ) && diagnostics@ == d0 by {
                    let n = crate::readings::lemma_chain_step(p0.toks(), 4, left, k, e, j);
                    let spelled = Expr::Binary {
                        left: Box::new(left),
                        op: n.0,
                        right: Box::new(n.1),
                        span: expr_span(left),
                    };
                    lemma_same_reflexive(left);
                    assert(same_expr(expr, spelled));
                    crate::readings::lemma_chain_same(p0.toks(), 4, spelled, expr, n.2, e, j);
                }
            }
        }
        Some(expr)
    }

    fn parse_term(&mut self, diagnostics: &mut Diagnostics) -> (r: Option<Expr>)
        requires
            old(self).wf(),
        ensures
            r matches Some(e) ==> derives(old(self).toks(), 5, old(self).index as int, e, final(self).index as int)
                && !continues(5, old(self).toks()[final(self).index as int].kind),
            steps(*old(self), *final(self)),
            grows(old(diagnostics)@, final(diagnostics)@),
            r is None ==> error_count(old(diagnostics)@) < error_count(final(diagnostics)@),
            old(self).movable() ==> old(self).index < final(self).index,
            r matches Some(e) ==> expr_strings_below(e, old(self).bound()),
            forall|e: Expr, j: int|
                #[trigger] reading(old(self).toks(), 5, old(self).index as int, e, j) ==> gives(
                    r,
                    final(self).index as int,
                    old(diagnostics)@,
                    final(diagnostics)@,
                    e,
                    j,
                ),
        decreases old(self).tokens@.len() - old(self).index, 22int,
    {
        let ghost p0 = *self;
        let ghost d0 = diagnostics@;
        let mut expr = match self.parse_factor(diagnostics) {
            Some(e) => e,
            None => {
                proof {
                    assert forall|e: Expr, j: int| #[trigger] reading(p0.toks(), 5, p0.index as int, e, j) implies false by {
                        crate::readings::lemma_chain_start(p0.toks(), 5, p0.index as int, e, j);
                    }
                }
                return None;
            },
        };
        proof {
            assert forall|e: Expr, j: int| #[trigger] reading(p0.toks(), 5, p0.index as int, e, j) implies crate::readings::chains(
                p0.toks(),
                5,
                expr,
                self.index as int,
                e,
                j,
            ) && diagnostics@ == d0 by {
                let b = crate::readings::lemma_chain_start(p0.toks(), 5, p0.index as int, e, j);
                crate::readings::lemma_chain_same(p0.toks(), 5, b.0, expr, b.1, e, j);
            }
            crate::grammar::lemma_loosen(p0.toks(), 6, p0.index as int, expr, self.index as int);
        }
        loop
            invariant
                steps(p0, *self),
                grows(d0, diagnostics@),
                p0 == *old(self),
                d0 == old(diagnostics)@,
                p0.movable() ==> p0.index < self.index,
                expr_strings_below(expr, p0.bound()),
                derives(p0.toks(), 5, p0.index as int, expr, self.index as int),
                !continues(6, p0.toks()[self.index as int].kind),
                forall|e: Expr, j: int|
                    #[trigger] reading(p0.toks(), 5, p0.index as int, e, j) ==> crate::readings::chains(
                        p0.toks(),
                        5,
                        expr,
                        self.index as int,
                        e,
                        j,
                    ) && diagnostics@ == d0,
            ensures
                derives(p0.toks(), 5, p0.index as int, expr, self.index as int),
                !continues(5, p0.toks()[self.index as int].kind),
                forall|e: Expr, j: int|
                    #[trigger] reading(p0.toks(), 5, p0.index as int, e, j) ==> gives(Some(expr), self.index as int, d0, diagnostics@, e, j),
            decreases self.tokens@.len() - self.index,
        {
            let ghost k = self.index as int;
            let ghost left = expr;
            let op = if self.consume_if(TAG_PLUS) {
                BinaryOp::Add
            } else if self.consume_if(TAG_MINUS) {
                BinaryOp::Sub
            } else {
                proof {
                        assert forall|e: Expr, j: int| #[trigger] reading(p0.toks(), 5, p0.index as int, e, j) implies gives(
                            Some(expr),
                            self.index as int,
                            d0,
                            diagnostics@,
                            e,
                            j,
                        ) by {
                            if !(same_expr(expr, e) && self.index == j) {
                                crate::readings::lemma_chain_step(p0.toks(), 5, expr, self.index as int, e, j);
                            }
                        }
                    }
                break;
            };
            let right = match self.parse_factor(diagnostics) {
                Some(e) => e,
                None => {
                    proof {
                        assert forall|e: Expr, j: int| #[trigger] reading(p0.toks(), 5, p0.index as int, e, j) implies false by {
                            crate::readings::lemma_chain_step(p0.toks(), 5, left, k, e, j);
                        }
                    }
                    return None;
                },
            };
            proof {
                assert(crate::grammar::binary_operator(p0.toks()[k].kind) == Some((5nat, op)));
                crate::grammar::lemma_binary(p0.toks(), 5, p0.index as int, left, op, right, k, self.index as int);
            }
            let span = expr.span();
            expr = Expr::Binary { left: Box::new(expr), op, right: Box::new(right), span };
            proof {
                assert forall|e: Expr, j: int| #[trigger] reading(p0.toks(), 5, p0.index as int, e, j) implies crate::readings::chains(
                    p0.toks(),
                    5,
                    expr,
                    self.index as int,
                    e,
                    j,
                ) && diagnostics@ == d0 by {
                    let n = crate::readings::lemma_chain_step(p0.toks(), 5, left, k, e, j);
                    let spelled = Expr::Binary {
                        left: Box::new(left),
                        op: n.0,
                        right: Box::new(n.1),
                        span: expr_span(left),
                    };
                    lemma_same_reflexive(left);
                    assert(same_expr(expr, spelled));
                    crate::readings::lemma_chain_same(p0.toks(), 5, spelled, expr, n.2, e, j);
                }
            }
        }
        Some(expr)
    }

    fn parse_factor(&mut self, diagnostics: &mut Diagnostics) -> (r: Option<Expr>)
        requires
            old(self).wf(),
        ensures
            r matches Some(e) ==> derives(old(self).toks(), 6, old(self).index as int, e, final(self).index as int)
                && !continues(6, old(self).toks()[final(self).index as int].kind),
            steps(*old(self), *final(self)),
            grows(old(diagnostics)@, final(diagnostics)@),
            r is None ==> error_count(old(diagnostics)@) < error_count(final(diagnostics)@),
            old(self).movable() ==> old(self).index < final(self).index,
            r matches Some(e) ==> expr_strings_below(e, old(self).bound()),
            forall|e: Expr, j: int|
                #[trigger] reading(old(self).toks(), 6, old(self).index as int, e, j) ==> gives(
                    r,
                    final(self).index as int,
                    old(diagnostics)@,
                    final(diagnostics)@,
                    e,
                    j,
                ),
        decreases old(self).tokens@.len() - old(self).index, 21int,
    {
        let ghost p0 = *self;
        let ghost d0 = diagnostics@;
        let mut expr = match self.parse_unary(diagnostics) {
            Some(e) => e,
            None => {
                proof {
                    assert forall|e: Expr, j: int| #[trigger] reading(p0.toks(), 6, p0.index as int, e, j) implies false by {
                        crate::readings::lemma_chain_start(p0.toks(), 6, p0.index as int, e, j);
                    }
                }
                return None;
            },
        };
        proof {
            assert forall|e: Expr, j: int| #[trigger] reading(p0.toks(), 6, p0.index as int, e, j) implies crate::readings::chains(
                p0.toks(),
                6,
                expr,
                self.index as int,
                e,
                j,
            ) && diagnostics@ == d0 by {
                let b = crate::readings::lemma_chain_start(p0.toks(), 6, p0.index as int, e, j);
                crate::readings::lemma_chain_same(p0.toks(), 6, b.0, expr, b.1, e, j);
            }
            crate::grammar::lemma_loosen(p0.toks(), 7, p0.index as int, expr, self.index as int);
        }
        loop
            invariant
                steps(p0, *self),
                grows(d0, diagnostics@),
                p0 == *old(self),
                d0 == old(diagnostics)@,
                p0.movable() ==> p0.index < self.index,
                expr_strings_below(expr, p0.bound()),
                derives(p0.toks(), 6, p0.index as int, expr, self.index as int),
                !continues(7, p0.toks()[self.index as int].kind),
                forall|e: Expr, j: int|
                    #[trigger] reading(p0.toks(), 6, p0.index as int, e, j) ==> crate::readings::chains(
                        p0.toks(),
                        6,
                        expr,
                        self.index as int,
                        e,
                        j,
                    ) && diagnostics@ == d0,
            ensures
                derives(p0.toks(), 6, p0.index as int, expr, self.index as int),
                !continues(6, p0.toks()[self.index as int].kind),
                forall|e: Expr, j: int|
                    #[trigger] reading(p0.toks(), 6, p0.index as int, e, j) ==> gives(Some(expr), self.index as int, d0, diagnostics@, e, j),
            decreases self.tokens@.len() - self.index,
        {
            let ghost k = self.index as int;
            let ghost left = expr;
            let op = if self.consume_if(TAG_STAR) {
                BinaryOp::Mul
            } else if self.consume_if(TAG_SLASH) {
                BinaryOp::Div
            } else if self.consume_if(TAG_PERCENT) {
                BinaryOp::Mod
            } else {
                proof {
                        assert forall|e: Expr, j: int| #[trigger] reading(p0.toks(), 6, p0.index as int, e, j) implies gives(
                            Some(expr),
                            self.index as int,
                            d0,
                            diagnostics@,
                            e,
                            j,
                        ) by {
                            if !(same_expr(expr, e) && self.index == j) {
                                crate::readings::lemma_chain_step(p0.toks(), 6, expr, self.index as int, e, j);
                            }
                        }
                    }
                break;
            };
            let right = match self.parse_unary(diagnostics) {
                Some(e) => e,
                None => {
                    proof {
                        assert forall|e: Expr, j: int| #[trigger] reading(p0.toks(), 6, p0.index as int, e, j) implies false by {
                            crate::readings::lemma_chain_step(p0.toks(), 6, left, k, e, j);
                        }
                    }
                    return None;
                },
            };
            proof {
                assert(crate::grammar::binary_operator(p0.toks()[k].kind) == Some((6nat, op)));
                crate::grammar::lemma_binary(p0.toks(), 6, p0.index as int, left, op, right, k, self.index as int);
            }
            let span = expr.span();
            expr = Expr::Binary { left: Box::new(expr), op, right: Box::new(right), span };
            proof {
                assert forall|e: Expr, j: int| #[trigger] reading(p0.toks(), 6, p0.index as int, e, j) implies crate::readings::chains(
                    p0.toks(),
                    6,
                    expr,
                    self.index as int,
                    e,
                    j,
                ) && diagnostics@ == d0 by {
                    let n = crate::readings::lemma_chain_step(p0.toks(), 6, left, k, e, j);
                    let spelled = Expr::Binary {
                        left: Box::new(left),
                        op: n.0,
                        right: Box::new(n.1),
                        span: expr_span(left),
                    };
                    lemma_same_reflexive(left);
                    assert(same_expr(expr, spelled));
                    crate::readings::lemma_chain_same(p0.toks(), 6, spelled, expr, n.2, e, j);
                }
            }
        }
        Some(expr)
    }

    fn parse_unary(&mut self, diagnostics: &mut Diagnostics) -> (r: Option<Expr>)
        requires
            old(self).wf(),
        ensures
            r matches Some(e) ==> derives(old(self).toks(), 7, old(self).index as int, e, final(self).index as int)
                && !continues(7, old(self).toks()[final(self).index as int].kind),
            steps(*old(self), *final(self)),
            grows(old(diagnostics)@, final(diagnostics)@),
            r is None ==> error_count(old(diagnostics)@) < error_count(final(diagnostics)@),
            old(self).movable() ==> old(self).index < final(self).index,
            r matches Some(e) ==> expr_strings_below(e, old(self).bound()),
            forall|e: Expr, j: int|
                #[trigger] reading(old(self).toks(), 7, old(self).index as int, e, j) ==> gives(
                    r,
                    final(self).index as int,
                    old(diagnostics)@,
                    final(diagnostics)@,
                    e,
                    j,
                ),
        decreases old(self).tokens@.len() - old(self).index, 20int,
    {
        if self.consume_if(TAG_BANG) {
            proof {
                assert(old(self).toks()[old(self).index as int].kind == Kind::Bang);
            }
            let ghost s1 = *self;
            let expr = match self.parse_unary(diagnostics) {
                Some(e) => e,
                None => {
                    proof {
                        assert forall|e: Expr, j: int| #[trigger] reading(old(self).toks(), 7, old(self).index as int, e, j) implies false by {
                            crate::readings::lemma_prefix_reading(old(self).toks(), old(self).index as int, e, j);
                            match e {
                                Expr::Unary { expr: inner, .. } => {
                                    assert(reading(s1.toks(), 7, s1.index as int, *inner, j));
                                },
                                _ => {},
                            }
                        }
                    }
                    return None;
                },
            };
            proof {
                crate::grammar::lemma_prefix(self.toks(), old(self).index as int, UnaryOp::Not, expr, self.index as int);
            }
            let span = expr.span();
            let result = Expr::Unary { op: UnaryOp::Not, expr: Box::new(expr), span };
            proof {
                assert forall|e: Expr, j: int| #[trigger] reading(old(self).toks(), 7, old(self).index as int, e, j) implies gives(
                    Some(result),
                    self.index as int,
                    old(diagnostics)@,
                    diagnostics@,
                    e,
                    j,
                ) by {
                    crate::readings::lemma_prefix_reading(old(self).toks(), old(self).index as int, e, j);
                    match e {
                        Expr::Unary { expr: inner, .. } => {
                            assert(reading(s1.toks(), 7, s1.index as int, *inner, j));
                            crate::readings::lemma_same_symmetric(expr, *inner);
                        },
                        _ => {},
                    }
                }
            }
            return Some(result);
        }
        if self.consume_if(TAG_MINUS) {
            proof {
                assert(old(self).toks()[old(self).index as int].kind == Kind::Minus);
            }
            let ghost s1 = *self;
            let expr = match self.parse_unary(diagnostics) {
                Some(e) => e,
                None => {
                    proof {
                        assert forall|e: Expr, j: int| #[trigger] reading(old(self).toks(), 7, old(self).index as int, e, j) implies false by {
                            crate::readings::lemma_prefix_reading(old(self).toks(), old(self).index as int, e, j);
                            match e {
                                Expr::Unary { expr: inner, .. } => {
                                    assert(reading(s1.toks(), 7, s1.index as int, *inner, j));
                                },
                                _ => {},
                            }
                        }
                    }
                    return None;
                },
            };
            proof {
                crate::grammar::lemma_prefix(self.toks(), old(self).index as int, UnaryOp::Neg, expr, self.index as int);
            }
            let span = expr.span();
            let result = Expr::Unary { op: UnaryOp::Neg, expr: Box::new(expr), span };
            proof {
                assert forall|e: Expr, j: int| #[trigger] reading(old(self).toks(), 7, old(self).index as int, e, j) implies gives(
                    Some(result),
                    self.index as int,
                    old(diagnostics)@,
                    diagnostics@,
                    e,
                    j,
                ) by {
                    crate::readings::lemma_prefix_reading(old(self).toks(), old(self).index as int, e, j);
                    match e {
                        Expr::Unary { expr: inner, .. } => {
                            assert(reading(s1.toks(), 7, s1.index as int, *inner, j));
                            crate::readings::lemma_same_symmetric(expr, *inner);
                        },
                        _ => {},
                    }
                }
            }
            return Some(result);
        }
        let ghost i0 = self.index as int;
        let ghost d0 = diagnostics@;
        let r = self.parse_primary(diagnostics);
        proof {
            if r is Some {
                crate::grammar::lemma_loosen(self.toks(), 8, i0, r->0, self.index as int);
            }
            assert forall|e: Expr, j: int| #[trigger] reading(old(self).toks(), 7, old(self).index as int, e, j) implies gives(r, self.index as int, d0, diagnostics@, e, j) by {
                crate::readings::lemma_prefix_reading(old(self).toks(), old(self).index as int, e, j);
                assert(reading(old(self).toks(), 8, i0, e, j));
            }
        }
        r
    }

    #[verifier::rlimit(60)]
    #[verifier::spinoff_prover]
    fn parse_primary(&mut self, diagnostics: &mut Diagnostics) -> (r: Option<Expr>)
        requires
            old(self).wf(),
        ensures
            r matches Some(e) ==> derives(old(self).toks(), 8, old(self).index as int, e, final(self).index as int)
                && !continues(8, old(self).toks()[final(self).index as int].kind),
            steps(*old(self), *final(self)),
            grows(old(diagnostics)@, final(diagnostics)@),
            r is None ==> error_count(old(diagnostics)@) < error_count(final(diagnostics)@),
            old(self).movable() ==> old(self).index < final(self).index,
            r matches Some(e) ==> expr_strings_below(e, old(self).bound()),
            forall|e: Expr, j: int|
                #[trigger] reading(old(self).toks(), 8, old(self).index as int, e, j) ==> gives(
                    r,
                    final(self).index as int,
                    old(diagnostics)@,
                    final(diagnostics)@,
                    e,
                    j,
                ),
        decreases old(self).tokens@.len() - old(self).index, 19int,
    {
        let ghost p0 = *self;
        let ghost i0 = p0.index as int;
        let ghost d0 = diagnostics@;
        let token = self.advance();
        let span = token.span;
        let expr = match token.kind {
            TokenKind::IntLiteral(value) => {
                let literal = Expr::IntLiteral(value, span);
                proof {
                    crate::grammar::lemma_primary(self.toks(), i0, literal, self.index as int, crate::grammar::Shape::Leaf);
                    assert forall|x0: Expr, q0: int| #[trigger] derives(p0.toks(), 9, i0, x0, q0) implies same_expr(
                        literal,
                        x0,
                    ) && self.index == q0 && diagnostics@ == d0 by {
                        let sh = choose|sh: crate::grammar::Shape| #[trigger] derivation(p0.toks(), 9, i0, x0, q0, sh);
                        assert(crate::grammar::primary(p0.toks(), i0, x0, q0, sh));
                    }
                }
                literal
            },
            TokenKind::FloatLiteral(value) => {
                let literal = Expr::FloatLiteral(value, span);
                proof {
                    crate::grammar::lemma_primary(self.toks(), i0, literal, self.index as int, crate::grammar::Shape::Leaf);
                    assert forall|x0: Expr, q0: int| #[trigger] derives(p0.toks(), 9, i0, x0, q0) implies same_expr(
                        literal,
                        x0,
                    ) && self.index == q0 && diagnostics@ == d0 by {
                        let sh = choose|sh: crate::grammar::Shape| #[trigger] derivation(p0.toks(), 9, i0, x0, q0, sh);
                        assert(crate::grammar::primary(p0.toks(), i0, x0, q0, sh));
                    }
                }
                literal
            },
            TokenKind::StringLiteral(value) => {
                let literal = Expr::StringLiteral(value, span);
                proof {
                    crate::grammar::lemma_primary(self.toks(), i0, literal, self.index as int, crate::grammar::Shape::Leaf);
                    assert forall|x0: Expr, q0: int| #[trigger] derives(p0.toks(), 9, i0, x0, q0) implies same_expr(
                        literal,
                        x0,
                    ) && self.index == q0 && diagnostics@ == d0 by {
                        let sh = choose|sh: crate::grammar::Shape| #[trigger] derivation(p0.toks(), 9, i0, x0, q0, sh);
                        assert(crate::grammar::primary(p0.toks(), i0, x0, q0, sh));
                    }
                }
                literal
            },
            TokenKind::True => {
                let literal = Expr::BoolLiteral(true, span);
                proof {
                    crate::grammar::lemma_primary(self.toks(), i0, literal, self.index as int, crate::grammar::Shape::Leaf);
                    assert forall|x0: Expr, q0: int| #[trigger] derives(p0.toks(), 9, i0, x0, q0) implies same_expr(
                        literal,
                        x0,
                    ) && self.index == q0 && diagnostics@ == d0 by {
                        let sh = choose|sh: crate::grammar::Shape| #[trigger] derivation(p0.toks(), 9, i0, x0, q0, sh);
                        assert(crate::grammar::primary(p0.toks(), i0, x0, q0, sh));
                    }
                }
                literal
            },
            TokenKind::False => {
                let literal = Expr::BoolLiteral(false, span);
                proof {
                    crate::grammar::lemma_primary(self.toks(), i0, literal, self.index as int, crate::grammar::Shape::Leaf);
                    assert forall|x0: Expr, q0: int| #[trigger] derives(p0.toks(), 9, i0, x0, q0) implies same_expr(
                        literal,
                        x0,
                    ) && self.index == q0 && diagnostics@ == d0 by {
                        let sh = choose|sh: crate::grammar::Shape| #[trigger] derivation(p0.toks(), 9, i0, x0, q0, sh);
                        assert(crate::grammar::primary(p0.toks(), i0, x0, q0, sh));
                    }
                }
                literal
            },
            TokenKind::Identifier(name) => {
                proof {
                    assert(self.toks()[i0].kind == Kind::Identifier(name@));
                }
                if self.consume_if(TAG_DOT) {
                    let method_name = match self.expect_identifier(
                        "Expected name after '.' in qualified call",
                        diagnostics,
                    ) {
                        Some(n) => n,
                        None => {
                            proof {
                                assert forall|e: Expr, j: int| #[trigger] reading(p0.toks(), 8, i0, e, j) implies false by {
                                    let b = crate::readings::lemma_index_start(p0.toks(), i0, e, j);
                                    let sh = choose|sh: crate::grammar::Shape| #[trigger] derivation(p0.toks(), 9, i0, b.0, b.1, sh);
                                    assert(crate::grammar::primary(p0.toks(), i0, b.0, b.1, sh));
                                    match b.0 {
                                        Expr::Call { callee, args, .. } => {
                                            if callee is Qualified {
                                                assert(crate::grammar::list(p0.toks(), i0 + 4, args@, b.1, Kind::RParen, sh));
                                                assert(lists(p0.toks(), i0 + 4, args@, b.1, Kind::RParen));
                                            }
                                        },
                                        Expr::NewObject { args, .. } => {
                                            assert(crate::grammar::list(p0.toks(), i0 + 3, args@, b.1, Kind::RParen, sh));
                                            assert(lists(p0.toks(), i0 + 3, args@, b.1, Kind::RParen));
                                        },
                                        _ => {},
                                    }
                                }
                            }
                            return None;
                        },
                    };
                    if self.expect(TAG_L_PAREN, "Expected '(' after method name", diagnostics).is_none() {
                        proof {
                            assert forall|e: Expr, j: int| #[trigger] reading(p0.toks(), 8, i0, e, j) implies false by {
                                let b = crate::readings::lemma_index_start(p0.toks(), i0, e, j);
                                let sh = choose|sh: crate::grammar::Shape| #[trigger] derivation(p0.toks(), 9, i0, b.0, b.1, sh);
                                assert(crate::grammar::primary(p0.toks(), i0, b.0, b.1, sh));
                                match b.0 {
                                    Expr::Call { callee, args, .. } => {
                                        if callee is Qualified {
                                            assert(crate::grammar::list(p0.toks(), i0 + 4, args@, b.1, Kind::RParen, sh));
                                            assert(lists(p0.toks(), i0 + 4, args@, b.1, Kind::RParen));
                                        }
                                    },
                                    Expr::NewObject { args, .. } => {
                                        assert(crate::grammar::list(p0.toks(), i0 + 3, args@, b.1, Kind::RParen, sh));
                                        assert(lists(p0.toks(), i0 + 3, args@, b.1, Kind::RParen));
                                    },
                                    _ => {},
                                }
                            }
                        }
                        return None;
                    }
                    let ghost d1 = diagnostics@;
                    let args = match self.parse_arguments(diagnostics) {
                        Some(a) => a,
                        None => {
                            proof {
                                assert forall|e: Expr, j: int| #[trigger] reading(p0.toks(), 8, i0, e, j) implies false by {
                                    let b = crate::readings::lemma_index_start(p0.toks(), i0, e, j);
                                    let sh = choose|sh: crate::grammar::Shape| #[trigger] derivation(p0.toks(), 9, i0, b.0, b.1, sh);
                                    assert(crate::grammar::primary(p0.toks(), i0, b.0, b.1, sh));
                                    match b.0 {
                                        Expr::Call { callee, args, .. } => {
                                            if callee is Qualified {
                                                assert(crate::grammar::list(p0.toks(), i0 + 4, args@, b.1, Kind::RParen, sh));
                                                assert(lists(p0.toks(), i0 + 4, args@, b.1, Kind::RParen));
                                            }
                                        },
                                        Expr::NewObject { args, .. } => {
                                            assert(crate::grammar::list(p0.toks(), i0 + 3, args@, b.1, Kind::RParen, sh));
                                            assert(lists(p0.toks(), i0 + 3, args@, b.1, Kind::RParen));
                                        },
                                        _ => {},
                                    }
                                }
                            }
                            return None;
                        },
                    };
                    let call = Expr::Call {
                        callee: CallTarget::Qualified { module: name, name: method_name },
                        args,
                        span,
                    };
                    proof {
                        assert(self.toks()[i0 + 1].kind == Kind::Dot);
                        assert(self.toks()[i0 + 2].kind == Kind::Identifier(method_name@));
                        assert(self.toks()[i0 + 3].kind == Kind::LParen);
                        let sh = choose|sh: crate::grammar::Shape| #[trigger] crate::grammar::list(self.toks(), i0 + 4, args@, self.index as int, Kind::RParen, sh);
                        crate::grammar::lemma_primary(self.toks(), i0, call, self.index as int, sh);
                        assert forall|x0: Expr, q0: int| #[trigger] derives(p0.toks(), 9, i0, x0, q0) implies same_expr(
                            call,
                            x0,
                        ) && self.index == q0 && diagnostics@ == d0 by {
                            let sh = choose|sh: crate::grammar::Shape| #[trigger] derivation(p0.toks(), 9, i0, x0, q0, sh);
                            assert(crate::grammar::primary(p0.toks(), i0, x0, q0, sh));
                            match x0 {
                                Expr::Call { callee, args, .. } => {
                                    if callee is Qualified {
                                        assert(crate::grammar::list(p0.toks(), i0 + 4, args@, q0, Kind::RParen, sh));
                                        assert(lists(p0.toks(), i0 + 4, args@, q0, Kind::RParen));
                                    }
                                },
                                _ => {},
                            }
                        }
                    }
                    call
                } else if self.consume_if(TAG_L_PAREN) {
                    let args = match self.parse_arguments(diagnostics) {
                        Some(a) => a,
                        None => {
                            proof {
                                assert forall|e: Expr, j: int| #[trigger] reading(p0.toks(), 8, i0, e, j) implies false by {
                                    let b = crate::readings::lemma_index_start(p0.toks(), i0, e, j);
                                    let sh = choose|sh: crate::grammar::Shape| #[trigger] derivation(p0.toks(), 9, i0, b.0, b.1, sh);
                                    assert(crate::grammar::primary(p0.toks(), i0, b.0, b.1, sh));
                                    match b.0 {
                                        Expr::Call { callee, args, .. } => {
                                            if callee is Name {
                                                assert(crate::grammar::list(p0.toks(), i0 + 2, args@, b.1, Kind::RParen, sh));
                                                assert(lists(p0.toks(), i0 + 2, args@, b.1, Kind::RParen));
                                            }
                                        },
                                        _ => {},
                                    }
                                }
                            }
                            return None;
                        },
                    };
                    let call = Expr::Call { callee: CallTarget::Name(name), args, span };
                    proof {
                        assert(self.toks()[i0 + 1].kind == Kind::LParen);
                        let sh = choose|sh: crate::grammar::Shape| #[trigger] crate::grammar::list(self.toks(), i0 + 2, args@, self.index as int, Kind::RParen, sh);
                        crate::grammar::lemma_primary(self.toks(), i0, call, self.index as int, sh);
                        assert forall|x0: Expr, q0: int| #[trigger] derives(p0.toks(), 9, i0, x0, q0) implies same_expr(
                            call,
                            x0,
                        ) && self.index == q0 && diagnostics@ == d0 by {
                            let sh = choose|sh: crate::grammar::Shape| #[trigger] derivation(p0.toks(), 9, i0, x0, q0, sh);
                            assert(crate::grammar::primary(p0.toks(), i0, x0, q0, sh));
                            match x0 {
                                Expr::Call { callee, args, .. } => {
                                    if callee is Name {
                                        assert(crate::grammar::list(p0.toks(), i0 + 2, args@, q0, Kind::RParen, sh));
                                        assert(lists(p0.toks(), i0 + 2, args@, q0, Kind::RParen));
                                    }
                                },
                                _ => {},
                            }
                        }
                    }
                    call
                } else {
                    let ident = Expr::Identifier(name, span);
                    proof {
                        assert(self.toks()[i0 + 1].kind != Kind::Dot);
                        assert(self.toks()[i0 + 1].kind != Kind::LParen);
                        crate::grammar::lemma_primary(self.toks(), i0, ident, self.index as int, crate::grammar::Shape::Leaf);
                        assert forall|x0: Expr, q0: int| #[trigger] derives(p0.toks(), 9, i0, x0, q0) implies same_expr(
                            ident,
                            x0,
                        ) && self.index == q0 && diagnostics@ == d0 by {
                            let sh = choose|sh: crate::grammar::Shape| #[trigger] derivation(p0.toks(), 9, i0, x0, q0, sh);
                            assert(crate::grammar::primary(p0.toks(), i0, x0, q0, sh));
                        }
                    }
                    ident
                }
            },
            TokenKind::New => {
                let kind = match self.expect_identifier(
                    "Expected constructor name after new",
                    diagnostics,
                ) {
                    Some(n) => n,
                    None => {
                        proof {
                            assert forall|e: Expr, j: int| #[trigger] reading(p0.toks(), 8, i0, e, j) implies false by {
                                let b = crate::readings::lemma_index_start(p0.toks(), i0, e, j);
                                let sh = choose|sh: crate::grammar::Shape| #[trigger] derivation(p0.toks(), 9, i0, b.0, b.1, sh);
                                assert(crate::grammar::primary(p0.toks(), i0, b.0, b.1, sh));
                                match b.0 {
                                    Expr::Call { callee, args, .. } => {
                                        if callee is Qualified {
                                            assert(crate::grammar::list(p0.toks(), i0 + 4, args@, b.1, Kind::RParen, sh));
                                            assert(lists(p0.toks(), i0 + 4, args@, b.1, Kind::RParen));
                                        }
                                    },
                                    Expr::NewObject { args, .. } => {
                                        assert(crate::grammar::list(p0.toks(), i0 + 3, args@, b.1, Kind::RParen, sh));
                                        assert(lists(p0.toks(), i0 + 3, args@, b.1, Kind::RParen));
                                    },
                                    _ => {},
                                }
                            }
                        }
                        return None;
                    },
                };
                if self.expect(TAG_L_PAREN, "Expected '(' after constructor name", diagnostics).is_none() {
                    proof {
                        assert forall|e: Expr, j: int| #[trigger] reading(p0.toks(), 8, i0, e, j) implies false by {
                            let b = crate::readings::lemma_index_start(p0.toks(), i0, e, j);
                            let sh = choose|sh: crate::grammar::Shape| #[trigger] derivation(p0.toks(), 9, i0, b.0, b.1, sh);
                            assert(crate::grammar::primary(p0.toks(), i0, b.0, b.1, sh));
                            match b.0 {
                                Expr::Call { callee, args, .. } => {
                                    if callee is Qualified {
                                        assert(crate::grammar::list(p0.toks(), i0 + 4, args@, b.1, Kind::RParen, sh));
                                        assert(lists(p0.toks(), i0 + 4, args@, b.1, Kind::RParen));
                                    }
                                },
                                Expr::NewObject { args, .. } => {
                                    assert(crate::grammar::list(p0.toks(), i0 + 3, args@, b.1, Kind::RParen, sh));
                                    assert(lists(p0.toks(), i0 + 3, args@, b.1, Kind::RParen));
                                },
                                _ => {},
                            }
                        }
                    }
                    return None;
                }
                let args = match self.parse_arguments(diagnostics) {
                    Some(a) => a,
                    None => {
                        proof {
                            assert forall|e: Expr, j: int| #[trigger] reading(p0.toks(), 8, i0, e, j) implies false by {
                                let b = crate::readings::lemma_index_start(p0.toks(), i0, e, j);
                                let sh = choose|sh: crate::grammar::Shape| #[trigger] derivation(p0.toks(), 9, i0, b.0, b.1, sh);
                                assert(crate::grammar::primary(p0.toks(), i0, b.0, b.1, sh));
                                match b.0 {
                                    Expr::Call { callee, args, .. } => {
                                        if callee is Qualified {
                                            assert(crate::grammar::list(p0.toks(), i0 + 4, args@, b.1, Kind::RParen, sh));
                                            assert(lists(p0.toks(), i0 + 4, args@, b.1, Kind::RParen));
                                        }
                                    },
                                    Expr::NewObject { args, .. } => {
                                        assert(crate::grammar::list(p0.toks(), i0 + 3, args@, b.1, Kind::RParen, sh));
                                        assert(lists(p0.toks(), i0 + 3, args@, b.1, Kind::RParen));
                                    },
                                    _ => {},
                                }
                            }
                        }
                        return None;
                    },
                };
                let object = Expr::NewObject { kind, args, span };
                proof {
                    assert(self.toks()[i0].kind == Kind::New);
                    assert(self.toks()[i0 + 1].kind == Kind::Identifier(kind@));
                    assert(self.toks()[i0 + 2].kind == Kind::LParen);
                    let sh = choose|sh: crate::grammar::Shape| #[trigger] crate::grammar::list(self.toks(), i0 + 3, args@, self.index as int, Kind::RParen, sh);
                    crate::grammar::lemma_primary(self.toks(), i0, object, self.index as int, sh);
                    assert forall|x0: Expr, q0: int| #[trigger] derives(p0.toks(), 9, i0, x0, q0) implies same_expr(
                        object,
                        x0,
                    ) && self.index == q0 && diagnostics@ == d0 by {
                        let sh = choose|sh: crate::grammar::Shape| #[trigger] derivation(p0.toks(), 9, i0, x0, q0, sh);
                        assert(crate::grammar::primary(p0.toks(), i0, x0, q0, sh));
                        match x0 {
                            Expr::NewObject { args, .. } => {
                                assert(crate::grammar::list(p0.toks(), i0 + 3, args@, q0, Kind::RParen, sh));
                                assert(lists(p0.toks(), i0 + 3, args@, q0, Kind::RParen));
                            },
                            _ => {},
                        }
                    }
                }
                object
            },
            TokenKind::LBracket => {
                let ghost p1 = *self;
                let ghost d1 = diagnostics@;
                let mut elements: Vec<Expr> = Vec::new();
                if !self.consume_if(TAG_R_BRACKET) {
                    proof {
                        assert forall|items: Seq<Expr>, j: int| #[trigger] lists(p0.toks(), p1.index as int, items, j, Kind::RBracket) implies elements@.len() < items.len()
                            && same_exprs(elements@, items.take(elements@.len() as int)) && seps(
                            p0.toks(),
                            self.index as int,
                            items.skip(elements@.len() as int),
                            j - 1,
                        ) && p0.toks()[j - 1].kind == Kind::RBracket && diagnostics@ == d0 by {
                            lemma_list_opens(p0.toks(), p1.index as int, items, j, Kind::RBracket);
                            assert(items.skip(0) =~= items);
                            assert(items.take(0) =~= Seq::<Expr>::empty());
                        }
                    }
                    loop
                        invariant_except_break
                            elements@.len() == 0 ==> self.index == p1.index,
                            elements@.len() > 0 ==> seps(p0.toks(), p1.index as int, elements@, self.index - 1)
                                && p0.toks()[self.index - 1].kind == Kind::Comma,
                            forall|items: Seq<Expr>, j: int| #[trigger] lists(p0.toks(), p1.index as int, items, j, Kind::RBracket) ==> elements@.len() < items.len()
                                && same_exprs(elements@, items.take(elements@.len() as int)) && seps(
                                p0.toks(),
                                self.index as int,
                                items.skip(elements@.len() as int),
                                j - 1,
                            ) && p0.toks()[j - 1].kind == Kind::RBracket && diagnostics@ == d0,
                        invariant
                            steps(p1, *self),
                            p1.tokens@ == p0.tokens@,
                            p0.index < p1.index,
                            p1.index == i0 + 1,
                            i0 == p0.index,
                            p0.toks()[i0].kind == Kind::LBracket,
                            steps(p0, p1),
                            p0 == *old(self),
                            d0 == old(diagnostics)@,
                            d1 == d0,
                            grows(d1, diagnostics@),
                            grows(old(diagnostics)@, d1),
                            forall|i: int|
                                0 <= i < elements@.len() ==> expr_strings_below(
                                    #[trigger] elements@[i],
                                    p0.bound(),
                                ),
                        ensures
                            lists(p0.toks(), p1.index as int, elements@, self.index as int, Kind::RBracket),
                            forall|items: Seq<Expr>, j: int| #[trigger] lists(p0.toks(), p1.index as int, items, j, Kind::RBracket) ==> same_exprs(elements@, items)
                                && self.index == j && diagnostics@ == d0,
                        decreases self.tokens@.len() - self.index,
                    {
                        let ghost c = self.index as int;
                        let ghost before = elements@;
                        let element = match self.parse_expression(diagnostics) {
                            Some(e) => e,
                            None => {
                                proof {
                                    assert forall|items: Seq<Expr>, j: int| #[trigger] lists(p0.toks(), p1.index as int, items, j, Kind::RBracket) implies false by {
                                        let rest = items.skip(before.len() as int);
                                        let a = lemma_seps_front(p0.toks(), c, rest, j - 1);
                                        assert(reading(p0.toks(), 0, c, rest[0], a));
                                    }
                                    assert forall|e: Expr, j: int| #[trigger] reading(p0.toks(), 8, i0, e, j) implies false by {
                                        let b = crate::readings::lemma_index_start(p0.toks(), i0, e, j);
                                        let sh = choose|sh: crate::grammar::Shape| #[trigger] derivation(p0.toks(), 9, i0, b.0, b.1, sh);
                                        assert(crate::grammar::primary(p0.toks(), i0, b.0, b.1, sh));
                                        match b.0 {
                                            Expr::ArrayLiteral(items, _) => {
                                                assert(crate::grammar::list(p0.toks(), i0 + 1, items@, b.1, Kind::RBracket, sh));
                                                assert(lists(p0.toks(), p1.index as int, items@, b.1, Kind::RBracket));
                                            },
                                            _ => {},
                                        }
                                    }
                                }
                                return None;
                            },
                        };
                        let ghost k = self.index as int;
                        proof {
                            if before.len() > 0 {
                                crate::grammar::lemma_seps_push(p0.toks(), p1.index as int, before, c - 1, element, k);
                            } else {
                                crate::grammar::lemma_seps_one(p0.toks(), p1.index as int, element, k);
                                assert(before.push(element) =~= seq![element]);
                            }
                        }
                        elements.push(element);
                        proof {
                            assert forall|items: Seq<Expr>, j: int| #[trigger] lists(p0.toks(), p1.index as int, items, j, Kind::RBracket) implies same_exprs(
                                elements@,
                                items.take(elements@.len() as int),
                            ) && diagnostics@ == d0 by {
                                let rest = items.skip(before.len() as int);
                                let a = lemma_seps_front(p0.toks(), c, rest, j - 1);
                                assert(reading(p0.toks(), 0, c, rest[0], a));
                                assert(rest[0] == items[before.len() as int]);
                                assert(items.take(elements@.len() as int) =~= items.take(before.len() as int).push(
                                    items[before.len() as int],
                                ));
                                assert(elements@ == before.push(element));
                            }
                        }
                        if self.consume_if(TAG_COMMA) {
                            proof {
                                assert forall|items: Seq<Expr>, j: int| #[trigger] lists(p0.toks(), p1.index as int, items, j, Kind::RBracket) implies elements@.len() < items.len()
                                    && seps(p0.toks(), self.index as int, items.skip(elements@.len() as int), j - 1) by {
                                    let rest = items.skip(before.len() as int);
                                    let a = lemma_seps_front(p0.toks(), c, rest, j - 1);
                                    assert(reading(p0.toks(), 0, c, rest[0], a));
                                    assert(rest.drop_first() =~= items.skip(elements@.len() as int));
                                }
                            }
                            continue;
                        }
                        if self.expect(TAG_R_BRACKET, "Expected ']' after array literal", diagnostics).is_none() {
                            proof {
                                assert forall|items: Seq<Expr>, j: int| #[trigger] lists(p0.toks(), p1.index as int, items, j, Kind::RBracket) implies false by {
                                    let rest = items.skip(before.len() as int);
                                    let a = lemma_seps_front(p0.toks(), c, rest, j - 1);
                                    assert(reading(p0.toks(), 0, c, rest[0], a));
                                }
                                assert forall|e: Expr, j: int| #[trigger] reading(p0.toks(), 8, i0, e, j) implies false by {
                                    let b = crate::readings::lemma_index_start(p0.toks(), i0, e, j);
                                    let sh = choose|sh: crate::grammar::Shape| #[trigger] derivation(p0.toks(), 9, i0, b.0, b.1, sh);
                                    assert(crate::grammar::primary(p0.toks(), i0, b.0, b.1, sh));
                                    match b.0 {
                                        Expr::ArrayLiteral(items, _) => {
                                            assert(crate::grammar::list(p0.toks(), i0 + 1, items@, b.1, Kind::RBracket, sh));
                                            assert(lists(p0.toks(), p1.index as int, items@, b.1, Kind::RBracket));
                                        },
                                        _ => {},
                                    }
                                }
                            }
                            return None;
                        }
                        proof {
                            crate::grammar::lemma_lists_close(p0.toks(), p1.index as int, elements@, k, Kind::RBracket);
                            assert forall|items: Seq<Expr>, j: int| #[trigger] lists(p0.toks(), p1.index as int, items, j, Kind::RBracket) implies same_exprs(elements@, items)
                                && self.index == j && diagnostics@ == d0 by {
                                let rest = items.skip(before.len() as int);
                                let a = lemma_seps_front(p0.toks(), c, rest, j - 1);
                                assert(reading(p0.toks(), 0, c, rest[0], a));
                                assert(items.take(elements@.len() as int) =~= items);
                            }
                        }
                        break;
                    }
                } else {
                    proof {
                        crate::grammar::lemma_lists_empty(p0.toks(), p1.index as int, Kind::RBracket);
                        assert(elements@ =~= Seq::<Expr>::empty());
                        assert forall|items: Seq<Expr>, j: int| #[trigger] lists(p0.toks(), p1.index as int, items, j, Kind::RBracket) implies same_exprs(elements@, items)
                            && self.index == j && diagnostics@ == d0 by {
                            lemma_list_opens(p0.toks(), p1.index as int, items, j, Kind::RBracket);
                        }
                    }
                }
                let array = Expr::ArrayLiteral(elements, span);
                proof {
                    assert(self.toks()[i0].kind == Kind::LBracket);
                    let sh = choose|sh: crate::grammar::Shape| #[trigger] crate::grammar::list(self.toks(), i0 + 1, elements@, self.index as int, Kind::RBracket, sh);
                    crate::grammar::lemma_primary(self.toks(), i0, array, self.index as int, sh);
                    assert forall|x0: Expr, q0: int| #[trigger] derives(p0.toks(), 9, i0, x0, q0) implies same_expr(
                        array,
                        x0,
                    ) && self.index == q0 && diagnostics@ == d0 by {
                        let sh = choose|sh: crate::grammar::Shape| #[trigger] derivation(p0.toks(), 9, i0, x0, q0, sh);
                        assert(crate::grammar::primary(p0.toks(), i0, x0, q0, sh));
                        match x0 {
                            Expr::ArrayLiteral(items, _) => {
                                assert(crate::grammar::list(p0.toks(), i0 + 1, items@, q0, Kind::RBracket, sh));
                                assert(lists(p0.toks(), p1.index as int, items@, q0, Kind::RBracket));
                            },
                            _ => {},
                        }
                    }
                }
                array
            },
            TokenKind::LParen => {
                let expr = match self.parse_expression(diagnostics) {
                    Some(e) => e,
                    None => {
                        proof {
                            assert forall|e: Expr, j: int| #[trigger] reading(p0.toks(), 8, i0, e, j) implies false by {
                                let b = crate::readings::lemma_index_start(p0.toks(), i0, e, j);
                                let sh = choose|sh: crate::grammar::Shape| #[trigger] derivation(p0.toks(), 9, i0, b.0, b.1, sh);
                                assert(!crate::grammar::primary(p0.toks(), i0, b.0, b.1, sh));
                                assert(derivation(p0.toks(), 0, i0 + 1, b.0, b.1 - 1, sh));
                                assert(reading(p0.toks(), 0, i0 + 1, b.0, b.1 - 1));
                            }
                        }
                        return None;
                    },
                };
                let ghost k = self.index as int;
                if self.expect(TAG_R_PAREN, "Expected ')'", diagnostics).is_none() {
                    proof {
                        assert forall|e: Expr, j: int| #[trigger] reading(p0.toks(), 8, i0, e, j) implies false by {
                            let b = crate::readings::lemma_index_start(p0.toks(), i0, e, j);
                            let sh = choose|sh: crate::grammar::Shape| #[trigger] derivation(p0.toks(), 9, i0, b.0, b.1, sh);
                            assert(!crate::grammar::primary(p0.toks(), i0, b.0, b.1, sh));
                            assert(derivation(p0.toks(), 0, i0 + 1, b.0, b.1 - 1, sh));
                            assert(reading(p0.toks(), 0, i0 + 1, b.0, b.1 - 1));
                        }
                    }
                    return None;
                }
                proof {
                    assert(self.toks()[i0].kind == Kind::LParen);
                    assert(self.toks()[k].kind == Kind::RParen);
                    crate::grammar::lemma_parenthesized(self.toks(), i0, expr, k);
                    assert forall|x0: Expr, q0: int| #[trigger] derives(p0.toks(), 9, i0, x0, q0) implies same_expr(
                        expr,
                        x0,
                    ) && self.index == q0 && diagnostics@ == d0 by {
                        let sh = choose|sh: crate::grammar::Shape| #[trigger] derivation(p0.toks(), 9, i0, x0, q0, sh);
                        assert(!crate::grammar::primary(p0.toks(), i0, x0, q0, sh));
                        assert(derivation(p0.toks(), 0, i0 + 1, x0, q0 - 1, sh));
                        assert(reading(p0.toks(), 0, i0 + 1, x0, q0 - 1));
                    }
                }
                expr
            },
            _ => {
                proof {
                    assert forall|x0: Expr, q0: int| #[trigger] derives(p0.toks(), 9, i0, x0, q0) implies false by {
                        let sh = choose|sh: crate::grammar::Shape| #[trigger] derivation(p0.toks(), 9, i0, x0, q0, sh);
                        crate::readings::lemma_first_token(p0.toks(), 9, i0, x0, q0, sh);
                    }
                    assert forall|e: Expr, j: int| #[trigger] reading(p0.toks(), 8, i0, e, j) implies false by {
                        crate::readings::lemma_index_start(p0.toks(), i0, e, j);
                    }
                }
                diagnostics.error(Some(span), string_of("Expected expression"));
                return None;
            },
        };
        proof {
            crate::grammar::lemma_loosen(self.toks(), 9, i0, expr, self.index as int);
        }
        let ghost q = self.index as int;
        let r = self.parse_postfix(expr, Ghost(i0), diagnostics);
        proof {
            assert forall|e: Expr, j: int| #[trigger] reading(p0.toks(), 8, i0, e, j) implies gives(
                r,
                self.index as int,
                d0,
                diagnostics@,
                e,
                j,
            ) by {
                let b = crate::readings::lemma_index_start(p0.toks(), i0, e, j);
                lemma_index_same(p0.toks(), b.0, expr, b.1, e, j);
                assert(index_chains(p0.toks(), expr, q, e, j));
            }
        }
        r
    }

    fn parse_arguments(&mut self, diagnostics: &mut Diagnostics) -> (r: Option<Vec<Expr>>)
        requires
            old(self).wf(),
        ensures
            steps(*old(self), *final(self)),
            grows(old(diagnostics)@, final(diagnostics)@),
            r is None ==> error_count(old(diagnostics)@) < error_count(final(diagnostics)@),
            r matches Some(args) ==> forall|i: int|
                0 <= i < args@.len() ==> expr_strings_below(#[trigger] args@[i], old(self).bound()),
            r matches Some(args) ==> lists(old(self).toks(), old(self).index as int, args@, final(self).index as int, Kind::RParen),
            forall|items: Seq<Expr>, j: int|
                #[trigger] lists(old(self).toks(), old(self).index as int, items, j, Kind::RParen) ==> (r matches Some(
                    args,
                ) && same_exprs(args@, items)) && final(self).index == j && final(diagnostics)@ == old(
                    diagnostics,
                )@,
        decreases old(self).tokens@.len() - old(self).index, 29int,
    {
        let ghost p0 = *self;
        let ghost d0 = diagnostics@;
        let mut args: Vec<Expr> = Vec::new();
        if self.consume_if(TAG_R_PAREN) {
            proof {
                crate::grammar::lemma_lists_empty(p0.toks(), p0.index as int, Kind::RParen);
                assert(args@ =~= Seq::<Expr>::empty());
                assert forall|items: Seq<Expr>, j: int| #[trigger] lists(p0.toks(), p0.index as int, items, j, Kind::RParen) implies same_exprs(args@, items)
                    && self.index == j && diagnostics@ == d0 by {
                    lemma_list_opens(p0.toks(), p0.index as int, items, j, Kind::RParen);
                }
            }
            return Some(args);
        }
        proof {
            assert forall|items: Seq<Expr>, j: int| #[trigger] lists(p0.toks(), p0.index as int, items, j, Kind::RParen) implies args@.len() < items.len() && same_exprs(
                args@,
                items.take(args@.len() as int),
            ) && seps(p0.toks(), self.index as int, items.skip(args@.len() as int), j - 1)
                && p0.toks()[j - 1].kind == Kind::RParen && diagnostics@ == d0 by {
                lemma_list_opens(p0.toks(), p0.index as int, items, j, Kind::RParen);
                assert(items.skip(0) =~= items);
                assert(items.take(0) =~= Seq::<Expr>::empty());
            }
        }
        loop
            invariant_except_break
                args@.len() == 0 ==> self.index == p0.index,
                args@.len() > 0 ==> seps(p0.toks(), p0.index as int, args@, self.index - 1)
                    && p0.toks()[self.index - 1].kind == Kind::Comma,
                forall|items: Seq<Expr>, j: int| #[trigger] lists(p0.toks(), p0.index as int, items, j, Kind::RParen) ==> args@.len() < items.len() && same_exprs(
                    args@,
                    items.take(args@.len() as int),
                ) && seps(p0.toks(), self.index as int, items.skip(args@.len() as int), j - 1)
                    && p0.toks()[j - 1].kind == Kind::RParen && diagnostics@ == d0,
            invariant
                steps(p0, *self),
                grows(d0, diagnostics@),
                p0 == *old(self),
                d0 == old(diagnostics)@,
                forall|i: int|
                    0 <= i < args@.len() ==> expr_strings_below(#[trigger] args@[i], p0.bound()),
            ensures
                lists(p0.toks(), p0.index as int, args@, self.index as int, Kind::RParen),
                forall|items: Seq<Expr>, j: int| #[trigger] lists(p0.toks(), p0.index as int, items, j, Kind::RParen) ==> same_exprs(args@, items) && self.index == j
                    && diagnostics@ == d0,
            decreases self.tokens@.len() - self.index,
        {
            let ghost c = self.index as int;
            let ghost before = args@;
            let arg = match self.parse_expression(diagnostics) {
                Some(e) => e,
                None => {
                    proof {
                        assert forall|items: Seq<Expr>, j: int| #[trigger] lists(p0.toks(), p0.index as int, items, j, Kind::RParen) implies false by {
                            let rest = items.skip(before.len() as int);
                            let a = lemma_seps_front(p0.toks(), c, rest, j - 1);
                            assert(reading(p0.toks(), 0, c, rest[0], a));
                        }
                    }
                    return None;
                },
            };
            let ghost k = self.index as int;
            proof {
                if before.len() > 0 {
                    crate::grammar::lemma_seps_push(p0.toks(), p0.index as int, before, c - 1, arg, k);
                } else {
                    crate::grammar::lemma_seps_one(p0.toks(), p0.index as int, arg, k);
                    assert(before.push(arg) =~= seq![arg]);
                }
            }
            args.push(arg);
            proof {
                assert forall|items: Seq<Expr>, j: int| #[trigger] lists(p0.toks(), p0.index as int, items, j, Kind::RParen) implies same_exprs(
                    args@,
                    items.take(args@.len() as int),
                ) && diagnostics@ == d0 by {
                    let rest = items.skip(before.len() as int);
                    let a = lemma_seps_front(p0.toks(), c, rest, j - 1);
                    assert(reading(p0.toks(), 0, c, rest[0], a));
                    assert(rest[0] == items[before.len() as int]);
                    assert(items.take(args@.len() as int) =~= items.take(before.len() as int).push(
                        items[before.len() as int],
                    ));
                    assert(args@ == before.push(arg));
                }
            }
            if self.consume_if(TAG_COMMA) {
                proof {
                    assert forall|items: Seq<Expr>, j: int| #[trigger] lists(p0.toks(), p0.index as int, items, j, Kind::RParen) implies args@.len() < items.len()
                        && seps(p0.toks(), self.index as int, items.skip(args@.len() as int), j - 1) by {
                        let rest = items.skip(before.len() as int);
                        let a = lemma_seps_front(p0.toks(), c, rest, j - 1);
                        assert(reading(p0.toks(), 0, c, rest[0], a));
                        assert(rest.drop_first() =~= items.skip(args@.len() as int));
                    }
                }
                continue;
            }
            if self.expect(TAG_R_PAREN, "Expected ')' after arguments", diagnostics).is_none() {
                proof {
                    assert forall|items: Seq<Expr>, j: int| #[trigger] lists(p0.toks(), p0.index as int, items, j, Kind::RParen) implies false by {
                        let rest = items.skip(before.len() as int);
                        let a = lemma_seps_front(p0.toks(), c, rest, j - 1);
                        assert(reading(p0.toks(), 0, c, rest[0], a));
                    }
                }
                return None;
            }
            proof {
                assert forall|items: Seq<Expr>, j: int| #[trigger] lists(p0.toks(), p0.index as int, items, j, Kind::RParen) implies same_exprs(args@, items) && self.index == j
                    && diagnostics@ == d0 by {
                    let rest = items.skip(before.len() as int);
                    let a = lemma_seps_front(p0.toks(), c, rest, j - 1);
                    assert(reading(p0.toks(), 0, c, rest[0], a));
                    assert(items.take(args@.len() as int) =~= items);
                }
            }
            proof {
                crate::grammar::lemma_lists_close(p0.toks(), p0.index as int, args@, k, Kind::RParen);
            }
            break;
        }
        Some(args)
    }

    fn parse_postfix(&mut self, expr: Expr, start: Ghost<int>, diagnostics: &mut Diagnostics) -> (r:
        Option<Expr>)
        requires
            old(self).wf(),
            expr_strings_below(expr, old(self).bound()),
            derives(old(self).toks(), 8, start@, expr, old(self).index as int),
        ensures
            r matches Some(e) ==> derives(old(self).toks(), 8, start@, e, final(self).index as int)
                && !continues(8, old(self).toks()[final(self).index as int].kind),
            steps(*old(self), *final(self)),
            grows(old(diagnostics)@, final(diagnostics)@),
            r is None ==> error_count(old(diagnostics)@) < error_count(final(diagnostics)@),
            r matches Some(e) ==> expr_strings_below(e, old(self).bound()),
            forall|e: Expr, j: int|
                #[trigger] index_chains(old(self).toks(), expr, old(self).index as int, e, j) && 0 <= j
                    < old(self).toks().len() && old(self).toks()[j].kind != Kind::LBracket ==> gives(
                    r,
                    final(self).index as int,
                    old(diagnostics)@,
                    final(diagnostics)@,
                    e,
                    j,
                ),
        decreases old(self).tokens@.len() - old(self).index, 18int,
    {
        let ghost p0 = *self;
        let ghost d0 = diagnostics@;
        let mut current = expr;
        while self.consume_if(TAG_L_BRACKET)
            invariant
                steps(p0, *self),
                grows(d0, diagnostics@),
                p0 == *old(self),
                d0 == old(diagnostics)@,
                expr_strings_below(current, p0.bound()),
                derives(p0.toks(), 8, start@, current, self.index as int),
                forall|e: Expr, j: int|
                    #[trigger] index_chains(p0.toks(), expr, p0.index as int, e, j) && 0 <= j < p0.toks().len()
                        && p0.toks()[j].kind != Kind::LBracket ==> index_chains(
                        p0.toks(),
                        current,
                        self.index as int,
                        e,
                        j,
                    ) && diagnostics@ == d0,
            decreases self.tokens@.len() - self.index,
        {
            let ghost k = self.index - 1;
            let ghost before = current;
            let ghost d1 = diagnostics@;
            let index = match self.parse_expression(diagnostics) {
                Some(e) => e,
                None => {
                    proof {
                        assert forall|e: Expr, j: int|
                            #[trigger] index_chains(p0.toks(), expr, p0.index as int, e, j) && 0 <= j
                                < p0.toks().len() && p0.toks()[j].kind != Kind::LBracket implies false by {
                            lemma_index_step(p0.toks(), before, k, e, j);
                        }
                    }
                    return None;
                },
            };
            let ghost m = self.index as int;
            if self.expect(TAG_R_BRACKET, "Expected ']' after index expression", diagnostics).is_none() {
                proof {
                    assert forall|e: Expr, j: int|
                        #[trigger] index_chains(p0.toks(), expr, p0.index as int, e, j) && 0 <= j
                            < p0.toks().len() && p0.toks()[j].kind != Kind::LBracket implies false by {
                        lemma_index_step(p0.toks(), before, k, e, j);
                    }
                }
                return None;
            }
            proof {
                assert(p0.toks()[k].kind == Kind::LBracket);
                assert(p0.toks()[m].kind == Kind::RBracket);
                crate::grammar::lemma_index(p0.toks(), start@, current, k, index, m);
            }
            let span = current.span();
            current = Expr::Index { array: Box::new(current), index: Box::new(index), span };
            proof {
                assert forall|e: Expr, j: int|
                    #[trigger] index_chains(p0.toks(), expr, p0.index as int, e, j) && 0 <= j < p0.toks().len()
                        && p0.toks()[j].kind != Kind::LBracket implies index_chains(
                        p0.toks(),
                        current,
                        self.index as int,
                        e,
                        j,
                    ) && diagnostics@ == d0 by {
                    let n = lemma_index_step(p0.toks(), before, k, e, j);
                    let spelled = Expr::Index {
                        array: Box::new(before),
                        index: Box::new(n.0),
                        span: expr_span(before),
                    };
                    lemma_same_reflexive(before);
                    assert(same_expr(current, spelled));
                    lemma_index_same(p0.toks(), spelled, current, m + 1, e, j);
                }
            }
        }
        proof {
            assert forall|e: Expr, j: int|
                #[trigger] index_chains(p0.toks(), expr, p0.index as int, e, j) && 0 <= j < p0.toks().len()
                    && p0.toks()[j].kind != Kind::LBracket implies gives(
                    Some(current),
                    self.index as int,
                    d0,
                    diagnostics@,
                    e,
                    j,
                ) by {
                if !(same_expr(current, e) && self.index == j) {
                    lemma_index_step(p0.toks(), current, self.index as int, e, j);
                }
            }
        }
        Some(current)
    }

    fn synchronize_item(&mut self)
        requires
            old(self).wf(),
        ensures
            steps(*old(self), *final(self)),
            final(self).index == item_stop(old(self).toks(), old(self).index as int),
            item_boundary(final(self).cur().kind),
    {
        let ghost p0 = *self;
        loop
            invariant
                steps(p0, *self),
                p0 == *old(self),
                item_stop(p0.toks(), self.index as int) == item_stop(p0.toks(), p0.index as int),
            ensures
                steps(p0, *self),
                item_boundary(self.cur().kind),
                self.index == item_stop(p0.toks(), p0.index as int),
            decreases self.tokens@.len() - self.index,
        {
            let tag = self.current_tag();
            proof {
                assert(self.toks()[self.index as int] == self.cur());
            }
            if tag == TAG_EOF || tag == TAG_R_BRACE || tag == TAG_LET || tag == TAG_FUNC {
                break;
            }
            self.advance();
        }
    }

    fn synchronize_statement(&mut self)
        requires
            old(self).wf(),
        ensures
            steps(*old(self), *final(self)),
            ({
                let stop = statement_stop(old(self).toks(), old(self).index as int);
                final(self).index == if old(self).toks()[stop].kind == Kind::Semicolon {
                    stop + 1
                } else {
                    stop
                }
            }),
    {
        let ghost p0 = *self;
        loop
            invariant
                steps(p0, *self),
                p0 == *old(self),
                statement_stop(p0.toks(), self.index as int) == statement_stop(p0.toks(), p0.index as int),
            ensures
                steps(p0, *self),
                self.index == statement_stop(p0.toks(), p0.index as int),
            decreases self.tokens@.len() - self.index,
        {
            let tag = self.current_tag();
            proof {
                assert(self.toks()[self.index as int] == self.cur());
            }
            if tag == TAG_EOF || tag == TAG_R_BRACE || tag == TAG_SEMICOLON || tag == TAG_IF
                || tag == TAG_WHILE || tag == TAG_DO || tag == TAG_FOR || tag == TAG_LET || tag
                == TAG_RETURN {
                break;
            }
            self.advance();
        }
        self.consume_if(TAG_SEMICOLON);
    }
}

/// The target of an assignment written as `expr = ...`: a variable or an indexed
/// array element.
fn expression_to_assign_target(expr: Expr) -> (r: Option<AssignTarget>)
    ensures
        r is Some <==> (expr is Identifier || expr is Index),
        r matches Some(t) ==> crate::grammar::target_expr(t, expr_span(expr)) == expr,
{
    match expr {
        Expr::Identifier(name, _) => Some(AssignTarget::Identifier(name)),
        Expr::Index { array, index, .. } => Some(AssignTarget::Index { array: *array, index: *index }),
        _ => None,
    }
}

/// `w` is the `while` loop of a lowered `for` loop: its condition is the loop's
/// condition, or `true` when there is none, and its body is the loop body followed
/// by the update.
pub open spec fn lowered_while(
    w: Stmt,
    span: Span,
    condition: Option<Expr>,
    update: Option<Stmt>,
    body: Seq<Stmt>,
) -> bool {
    &&& w is While
    &&& w->While_span == span
    &&& w->While_condition == match condition {
        Some(c) => c,
        None => Expr::BoolLiteral(true, span),
    }
    &&& w->While_body@ == match update {
        Some(u) => body.push(u),
        None => body,
    }
}

/// The statement a `for` loop stands for: the initializer, then a `while` loop whose
/// body is the loop body followed by the update; a missing condition is `true`.
pub fn lower_for(
    span: Span,
    init: Option<Stmt>,
    condition: Option<Expr>,
    update: Option<Stmt>,
    body: Vec<Stmt>,
) -> (s: Stmt)
    ensures
        match init {
            Some(i) => {
                &&& s is Block
                &&& s->Block_span == span
                &&& s->Block_statements@.len() == 2
                &&& s->Block_statements@[0] == i
                &&& lowered_while(s->Block_statements@[1], span, condition, update, body@)
            },
            None => lowered_while(s, span, condition, update, body@),
        },
{
    let mut while_body = body;
    match update {
        Some(update_stmt) => {
            while_body.push(update_stmt);
        },
        None => {},
    }
    let cond = match condition {
        Some(c) => c,
        None => Expr::BoolLiteral(true, span),
    };
    let while_stmt = Stmt::While { condition: cond, body: while_body, span };
    match init {
        Some(init_stmt) => Stmt::Block { statements: vec![init_stmt, while_stmt], span },
        None => while_stmt,
    }
}

} // verus!
