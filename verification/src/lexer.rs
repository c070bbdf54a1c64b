use vstd::prelude::*;

use crate::diagnostics::{error_at, DiagnosticView, Diagnostics};
use crate::span::Span;
use crate::text::{
    char_digit_value, is_ascii_alnum, is_ascii_alpha, is_ascii_digit, is_whitespace, push_char,
    push_str, spec_is_ascii_alnum, spec_is_ascii_alpha, spec_is_ascii_digit, spec_is_whitespace,
    str_eq, string_from_chars, string_of, to_chars,
};
use crate::token::{token_str_len, Kind, Token, TokenKind, TokenView};

verus! {

// ---------------------------------------------------------------------------
// Positions
// ---------------------------------------------------------------------------

/// Line (1-based) of the character at index `i`: one more than the number of
/// newlines before it.
pub open spec fn line_at(cs: Seq<char>, i: int) -> int
    decreases i,
{
    if i <= 0 {
        1
    } else {
        line_at(cs, i - 1) + if cs[i - 1] == '\n' { 1int } else { 0int }
    }
}

/// Column (1-based) of the character at index `i`.
pub open spec fn col_at(cs: Seq<char>, i: int) -> int
    decreases i,
{
    if i <= 0 {
        1
    } else if cs[i - 1] == '\n' {
        1
    } else {
        col_at(cs, i - 1) + 1
    }
}

pub open spec fn span_at(cs: Seq<char>, i: int) -> Span {
    Span { line: line_at(cs, i) as usize, column: col_at(cs, i) as usize }
}

pub proof fn lemma_pos_bounds(cs: Seq<char>, i: int)
    requires
        0 <= i,
    ensures
        1 <= line_at(cs, i) <= i + 1,
        1 <= col_at(cs, i) <= i + 1,
    decreases i,
{
    if i > 0 {
        lemma_pos_bounds(cs, i - 1);
    }
}

// ---------------------------------------------------------------------------
// Character classes
// ---------------------------------------------------------------------------

pub open spec fn spec_ident_start(c: char) -> bool {
    spec_is_ascii_alpha(c) || c == '_'
}

pub open spec fn spec_ident_continue(c: char) -> bool {
    spec_is_ascii_alnum(c) || c == '_'
}

fn is_ident_start(ch: char) -> (b: bool)
    ensures
        b == spec_ident_start(ch),
{
    is_ascii_alpha(ch) || ch == '_'
}

fn is_ident_continue(ch: char) -> (b: bool)
    ensures
        b == spec_ident_continue(ch),
{
    is_ascii_alnum(ch) || ch == '_'
}

// ---------------------------------------------------------------------------
// The token grammar
// ---------------------------------------------------------------------------

/// End of the run of whitespace starting at `i`.
pub open spec fn skip_ws(cs: Seq<char>, i: int) -> int
    decreases cs.len() - i,
{
    if 0 <= i < cs.len() && spec_is_whitespace(cs[i]) {
        skip_ws(cs, i + 1)
    } else {
        i
    }
}

/// End of a line comment that starts at `i`: just past the next newline, or the
/// end of input.
pub open spec fn comment_end(cs: Seq<char>, i: int) -> int
    decreases cs.len() - i,
{
    if i < 0 || i >= cs.len() {
        i
    } else if cs[i] == '\n' {
        i + 1
    } else {
        comment_end(cs, i + 1)
    }
}

pub proof fn lemma_skip_ws(cs: Seq<char>, i: int)
    requires
        0 <= i <= cs.len(),
    ensures
        i <= skip_ws(cs, i) <= cs.len(),
        skip_ws(cs, i) < cs.len() ==> !spec_is_whitespace(cs[skip_ws(cs, i)]),
    decreases cs.len() - i,
{
    if i < cs.len() && spec_is_whitespace(cs[i]) {
        lemma_skip_ws(cs, i + 1);
    }
}

pub proof fn lemma_comment_end(cs: Seq<char>, i: int)
    requires
        0 <= i < cs.len(),
    ensures
        i < comment_end(cs, i) <= cs.len(),
    decreases cs.len() - i,
{
    if cs[i] != '\n' {
        if i + 1 < cs.len() {
            lemma_comment_end(cs, i + 1);
        } else {
            assert(comment_end(cs, i + 1) == i + 1);
        }
    }
}

/// Position of the next character that is neither whitespace nor inside a `//`
/// comment.
pub open spec fn skip_ignored(cs: Seq<char>, i: int) -> int
    decreases cs.len() - i,
{
    if i < 0 || i > cs.len() {
        i
    } else {
        let j = skip_ws(cs, i);
        if j + 1 < cs.len() && cs[j] == '/' && cs[j + 1] == '/' {
            proof {
                lemma_skip_ws(cs, i);
                lemma_comment_end(cs, j);
            }
            skip_ignored(cs, comment_end(cs, j))
        } else {
            j
        }
    }
}

pub proof fn lemma_skip_ignored(cs: Seq<char>, i: int)
    requires
        0 <= i <= cs.len(),
    ensures
        i <= skip_ignored(cs, i) <= cs.len(),
    decreases cs.len() - i,
{
    lemma_skip_ws(cs, i);
    let j = skip_ws(cs, i);
    if j + 1 < cs.len() && cs[j] == '/' && cs[j + 1] == '/' {
        lemma_comment_end(cs, j);
        lemma_skip_ignored(cs, comment_end(cs, j));
    }
}

/// End of the identifier characters starting at `i`.
pub open spec fn ident_end(cs: Seq<char>, i: int) -> int
    decreases cs.len() - i,
{
    if 0 <= i < cs.len() && spec_ident_continue(cs[i]) {
        ident_end(cs, i + 1)
    } else {
        i
    }
}

pub proof fn lemma_ident_end(cs: Seq<char>, i: int)
    requires
        0 <= i <= cs.len(),
    ensures
        i <= ident_end(cs, i) <= cs.len(),
    decreases cs.len() - i,
{
    if i < cs.len() && spec_ident_continue(cs[i]) {
        lemma_ident_end(cs, i + 1);
    }
}

/// The keyword that a word spells, or an identifier.
pub open spec fn word_kind(w: Seq<char>) -> Kind {
    if w == "import"@ { Kind::Import }
    else if w == "body"@ { Kind::Body }
    else if w == "let"@ { Kind::Let }
    else if w == "func"@ { Kind::Func }
    else if w == "return"@ { Kind::Return }
    else if w == "if"@ { Kind::If }
    else if w == "else"@ { Kind::Else }
    else if w == "while"@ { Kind::While }
    else if w == "do"@ { Kind::Do }
    else if w == "for"@ { Kind::For }
    else if w == "new"@ { Kind::New }
    else if w == "int"@ { Kind::IntType }
    else if w == "float"@ { Kind::FloatType }
    else if w == "string"@ { Kind::StringType }
    else if w == "bool"@ { Kind::BoolType }
    else if w == "true"@ { Kind::True }
    else if w == "false"@ { Kind::False }
    else { Kind::Identifier(w) }
}

/// The reserved words of the language, the names of the primitive types among
/// them.
pub open spec fn reserved_words() -> Seq<Seq<char>> {
    seq![
        "import"@, "body"@, "let"@, "func"@, "return"@, "if"@, "else"@, "while"@, "do"@, "for"@,
        "new"@, "true"@, "false"@, "int"@, "float"@, "string"@, "bool"@,
    ]
}

/// The keyword tokens of the reserved words, in the same order.
pub open spec fn reserved_kinds() -> Seq<Kind> {
    seq![
        Kind::Import, Kind::Body, Kind::Let, Kind::Func, Kind::Return, Kind::If, Kind::Else, Kind::While,
        Kind::Do, Kind::For, Kind::New, Kind::True, Kind::False, Kind::IntType, Kind::FloatType,
        Kind::StringType, Kind::BoolType,
    ]
}

/// No reserved word lexes as a name: each becomes its own keyword token, and no
/// two reserved words become the same token.
pub proof fn lemma_reserved_words_are_keywords()
    ensures
        forall|i: int| 0 <= i < reserved_words().len() ==> word_kind(#[trigger] reserved_words()[i]) == reserved_kinds()[i],
        forall|i: int| 0 <= i < reserved_words().len() ==> !(word_kind(#[trigger] reserved_words()[i]) is Identifier),
        forall|i: int, j: int|
            0 <= i < j < reserved_words().len() ==> word_kind(#[trigger] reserved_words()[i]) != word_kind(
                #[trigger] reserved_words()[j],
            ),
{
    reveal_strlit("import");
    reveal_strlit("body");
    reveal_strlit("let");
    reveal_strlit("func");
    reveal_strlit("return");
    reveal_strlit("if");
    reveal_strlit("else");
    reveal_strlit("while");
    reveal_strlit("do");
    reveal_strlit("for");
    reveal_strlit("new");
    reveal_strlit("true");
    reveal_strlit("false");
    reveal_strlit("int");
    reveal_strlit("float");
    reveal_strlit("string");
    reveal_strlit("bool");
    let ws = reserved_words();
    assert("import"@.len() == 6);
    assert("body"@.len() == 4);
    assert("let"@.len() == 3);
    assert("func"@.len() == 4);
    assert("return"@.len() == 6);
    assert("if"@.len() == 2);
    assert("else"@.len() == 4);
    assert("while"@.len() == 5);
    assert("do"@.len() == 2);
    assert("for"@.len() == 3);
    assert("new"@.len() == 3);
    assert("true"@.len() == 4);
    assert("false"@.len() == 5);
    assert("int"@.len() == 3);
    assert("float"@.len() == 5);
    assert("string"@.len() == 6);
    assert("bool"@.len() == 4);
    assert("import"@[0] != "return"@[0]);
    assert("import"@[0] != "string"@[0]);
    assert("body"@[0] != "func"@[0]);
    assert("body"@[0] != "else"@[0]);
    assert("body"@[0] != "true"@[0]);
    assert("body"@[2] != "bool"@[2]);
    assert("let"@[0] != "for"@[0]);
    assert("let"@[0] != "new"@[0]);
    assert("let"@[0] != "int"@[0]);
    assert("func"@[0] != "else"@[0]);
    assert("func"@[0] != "true"@[0]);
    assert("func"@[0] != "bool"@[0]);
    assert("return"@[0] != "string"@[0]);
    assert("if"@[0] != "do"@[0]);
    assert("else"@[0] != "true"@[0]);
    assert("else"@[0] != "bool"@[0]);
    assert("while"@[0] != "false"@[0]);
    assert("while"@[0] != "float"@[0]);
    assert("for"@[0] != "new"@[0]);
    assert("for"@[0] != "int"@[0]);
    assert("new"@[0] != "int"@[0]);
    assert("true"@[0] != "bool"@[0]);
    assert("false"@[1] != "float"@[1]);
    assert(ws[0] == "import"@);
    assert(word_kind(ws[0]) == Kind::Import);
    assert(ws[1] == "body"@);
    assert(word_kind(ws[1]) == Kind::Body);
    assert(ws[2] == "let"@);
    assert(word_kind(ws[2]) == Kind::Let);
    assert(ws[3] == "func"@);
    assert(word_kind(ws[3]) == Kind::Func);
    assert(ws[4] == "return"@);
    assert(word_kind(ws[4]) == Kind::Return);
    assert(ws[5] == "if"@);
    assert(word_kind(ws[5]) == Kind::If);
    assert(ws[6] == "else"@);
    assert(word_kind(ws[6]) == Kind::Else);
    assert(ws[7] == "while"@);
    assert(word_kind(ws[7]) == Kind::While);
    assert(ws[8] == "do"@);
    assert(word_kind(ws[8]) == Kind::Do);
    assert(ws[9] == "for"@);
    assert(word_kind(ws[9]) == Kind::For);
    assert(ws[10] == "new"@);
    assert(word_kind(ws[10]) == Kind::New);
    assert(ws[11] == "true"@);
    assert(word_kind(ws[11]) == Kind::True);
    assert(ws[12] == "false"@);
    assert(word_kind(ws[12]) == Kind::False);
    assert(ws[13] == "int"@);
    assert(word_kind(ws[13]) == Kind::IntType);
    assert(ws[14] == "float"@);
    assert(word_kind(ws[14]) == Kind::FloatType);
    assert(ws[15] == "string"@);
    assert(word_kind(ws[15]) == Kind::StringType);
    assert(ws[16] == "bool"@);
    assert(word_kind(ws[16]) == Kind::BoolType);
    let ks = reserved_kinds();
    assert(ks[0] == Kind::Import);
    assert(ks[1] == Kind::Body);
    assert(ks[2] == Kind::Let);
    assert(ks[3] == Kind::Func);
    assert(ks[4] == Kind::Return);
    assert(ks[5] == Kind::If);
    assert(ks[6] == Kind::Else);
    assert(ks[7] == Kind::While);
    assert(ks[8] == Kind::Do);
    assert(ks[9] == Kind::For);
    assert(ks[10] == Kind::New);
    assert(ks[11] == Kind::True);
    assert(ks[12] == Kind::False);
    assert(ks[13] == Kind::IntType);
    assert(ks[14] == Kind::FloatType);
    assert(ks[15] == Kind::StringType);
    assert(ks[16] == Kind::BoolType);
}

/// Every word that is not reserved lexes as a name.
pub proof fn lemma_other_words_are_names(w: Seq<char>)
    requires
        forall|i: int| 0 <= i < reserved_words().len() ==> #[trigger] reserved_words()[i] != w,
    ensures
        word_kind(w) == Kind::Identifier(w),
{
    let ws = reserved_words();
    assert(ws[0] == "import"@);
    assert(ws[1] == "body"@);
    assert(ws[2] == "let"@);
    assert(ws[3] == "func"@);
    assert(ws[4] == "return"@);
    assert(ws[5] == "if"@);
    assert(ws[6] == "else"@);
    assert(ws[7] == "while"@);
    assert(ws[8] == "do"@);
    assert(ws[9] == "for"@);
    assert(ws[10] == "new"@);
    assert(ws[11] == "true"@);
    assert(ws[12] == "false"@);
    assert(ws[13] == "int"@);
    assert(ws[14] == "float"@);
    assert(ws[15] == "string"@);
    assert(ws[16] == "bool"@);
}

/// End of a number literal starting at `i`: digits, with at most one dot.
pub open spec fn number_end(cs: Seq<char>, i: int, has_dot: bool) -> int
    decreases cs.len() - i,
{
    if 0 <= i < cs.len() && spec_is_ascii_digit(cs[i]) {
        number_end(cs, i + 1, has_dot)
    } else if 0 <= i < cs.len() && cs[i] == '.' && !has_dot {
        number_end(cs, i + 1, true)
    } else {
        i
    }
}

pub proof fn lemma_number_end(cs: Seq<char>, i: int, has_dot: bool)
    requires
        0 <= i <= cs.len(),
    ensures
        i <= number_end(cs, i, has_dot) <= cs.len(),
    decreases cs.len() - i,
{
    if i < cs.len() && spec_is_ascii_digit(cs[i]) {
        lemma_number_end(cs, i + 1, has_dot);
    } else if i < cs.len() && cs[i] == '.' && !has_dot {
        lemma_number_end(cs, i + 1, true);
    }
}

/// Value of a sequence of decimal digits.
pub open spec fn digits_value(s: Seq<char>) -> nat
    decreases s.len(),
{
    if s.len() == 0 {
        0
    } else {
        digits_value(s.drop_last()) * 10 + char_digit_value(s.last())
    }
}

pub open spec fn contains_char(s: Seq<char>, c: char) -> bool {
    exists|k: int| 0 <= k < s.len() && s[k] == c
}

/// The token of the number literal `text` found at `span`, with the errors it
/// raises.
pub open spec fn number_token(text: Seq<char>, span: Span) -> (Kind, Seq<DiagnosticView>) {
    if contains_char(text, '.') {
        (Kind::FloatLiteral(text), Seq::empty())
    } else if digits_value(text) <= i64::MAX {
        (Kind::IntLiteral(digits_value(text) as i64), Seq::empty())
    } else {
        (Kind::IntLiteral(0), seq![error_at(Some(span), "Invalid int literal: "@ + text)])
    }
}

/// Scans the inside of a string literal from `i`, after the opening quote;
/// `acc` is the value so far. Gives the value, the position after the literal, and
/// the errors raised.
pub open spec fn scan_string(cs: Seq<char>, i: int, acc: Seq<char>, span: Span) -> (
    Seq<char>,
    int,
    Seq<DiagnosticView>,
)
    decreases cs.len() - i,
{
    if i < 0 || i >= cs.len() {
        (acc, i, seq![error_at(Some(span), "Unterminated string literal"@)])
    } else if cs[i] == '"' {
        (acc, i + 1, Seq::empty())
    } else if cs[i] == '\\' {
        if i + 1 >= cs.len() {
            (
                acc,
                i + 1,
                seq![
                    error_at(Some(span), "Unterminated escape sequence"@),
                    error_at(Some(span), "Unterminated string literal"@),
                ],
            )
        } else {
            let e = cs[i + 1];
            if e == 'n' {
                scan_string(cs, i + 2, acc.push('\n'), span)
            } else if e == 't' {
                scan_string(cs, i + 2, acc.push('\t'), span)
            } else if e == '"' {
                scan_string(cs, i + 2, acc.push('"'), span)
            } else if e == '(' {
                scan_string(cs, i + 2, acc.push('\\').push('('), span)
            } else if e == '\\' {
                scan_string(cs, i + 2, acc.push('\\'), span)
            } else {
                let rest = scan_string(cs, i + 2, acc.push(e), span);
                (
                    rest.0,
                    rest.1,
                    seq![error_at(Some(span), "Unknown escape sequence: \\"@.push(e))] + rest.2,
                )
            }
        }
    } else {
        scan_string(cs, i + 1, acc.push(cs[i]), span)
    }
}

/// A string literal without escapes is its text: scanning from `i` up to the
/// closing quote at `q` gives the characters in between, ends after the quote,
/// and raises no error.
pub proof fn lemma_plain_string(cs: Seq<char>, i: int, q: int, acc: Seq<char>, span: Span)
    requires
        0 <= i <= q < cs.len(),
        cs[q] == '"',
        forall|k: int| i <= k < q ==> cs[k] != '"' && cs[k] != '\\',
    ensures
        scan_string(cs, i, acc, span) == (acc + cs.subrange(i, q), q + 1, Seq::<DiagnosticView>::empty()),
    decreases q - i,
{
    if i < q {
        lemma_plain_string(cs, i + 1, q, acc.push(cs[i]), span);
        assert(acc.push(cs[i]) + cs.subrange(i + 1, q) =~= acc + cs.subrange(i, q));
    } else {
        assert(acc + cs.subrange(i, q) =~= acc);
    }
}

pub proof fn lemma_scan_string(cs: Seq<char>, i: int, acc: Seq<char>, span: Span)
    requires
        0 <= i <= cs.len(),
    ensures
        i <= scan_string(cs, i, acc, span).1 <= cs.len() + 1,
        scan_string(cs, i, acc, span).0.len() <= acc.len() + (cs.len() - i),
    decreases cs.len() - i,
{
    if i < cs.len() && cs[i] != '"' {
        if cs[i] == '\\' {
            if i + 1 < cs.len() {
                let e = cs[i + 1];
                if e == 'n' {
                    lemma_scan_string(cs, i + 2, acc.push('\n'), span);
                } else if e == 't' {
                    lemma_scan_string(cs, i + 2, acc.push('\t'), span);
                } else if e == '"' {
                    lemma_scan_string(cs, i + 2, acc.push('"'), span);
                } else if e == '(' {
                    lemma_scan_string(cs, i + 2, acc.push('\\').push('('), span);
                } else if e == '\\' {
                    lemma_scan_string(cs, i + 2, acc.push('\\'), span);
                } else {
                    lemma_scan_string(cs, i + 2, acc.push(e), span);
                }
            }
        } else {
            lemma_scan_string(cs, i + 1, acc.push(cs[i]), span);
        }
    }
}

/// The token kind of a one-character punctuation token.
pub open spec fn single_char_kind(c: char) -> Option<Kind> {
    if c == '(' { Some(Kind::LParen) }
    else if c == ')' { Some(Kind::RParen) }
    else if c == '{' { Some(Kind::LBrace) }
    else if c == '}' { Some(Kind::RBrace) }
    else if c == '[' { Some(Kind::LBracket) }
    else if c == ']' { Some(Kind::RBracket) }
    else if c == ':' { Some(Kind::Colon) }
    else if c == ';' { Some(Kind::Semicolon) }
    else if c == ',' { Some(Kind::Comma) }
    else if c == '.' { Some(Kind::Dot) }
    else if c == '?' { Some(Kind::Question) }
    else if c == '+' { Some(Kind::Plus) }
    else if c == '*' { Some(Kind::Star) }
    else if c == '%' { Some(Kind::Percent) }
    else if c == '/' { Some(Kind::Slash) }
    else { None }
}

/// For an operator that may be followed by a second character: the first
/// character, the second, the kind of the two-character token and of the
/// one-character token.
pub open spec fn pair_kinds(c: char) -> Option<(char, Kind, Kind)> {
    if c == '-' { Some(('>', Kind::Arrow, Kind::Minus)) }
    else if c == '=' { Some(('=', Kind::EqEq, Kind::Assign)) }
    else if c == '!' { Some(('=', Kind::NotEq, Kind::Bang)) }
    else if c == '>' { Some(('=', Kind::GreaterEq, Kind::Greater)) }
    else if c == '<' { Some(('=', Kind::LessEq, Kind::Less)) }
    else { None }
}

/// The operators and punctuation of the language and their tokens: each of these
/// characters makes its own token, and `-`, `=`, `!`, `>` and `<` make a
/// two-character token with the character that may follow them (`->`, `==`,
/// `!=`, `>=`, `<=`) and a one-character token otherwise.
pub proof fn lemma_operator_tokens()
    ensures
        single_char_kind('(') == Some(Kind::LParen),
        single_char_kind(')') == Some(Kind::RParen),
        single_char_kind('{') == Some(Kind::LBrace),
        single_char_kind('}') == Some(Kind::RBrace),
        single_char_kind('[') == Some(Kind::LBracket),
        single_char_kind(']') == Some(Kind::RBracket),
        single_char_kind(':') == Some(Kind::Colon),
        single_char_kind(';') == Some(Kind::Semicolon),
        single_char_kind(',') == Some(Kind::Comma),
        single_char_kind('.') == Some(Kind::Dot),
        single_char_kind('?') == Some(Kind::Question),
        single_char_kind('+') == Some(Kind::Plus),
        single_char_kind('*') == Some(Kind::Star),
        single_char_kind('%') == Some(Kind::Percent),
        single_char_kind('/') == Some(Kind::Slash),
        single_char_kind('-') is None && pair_kinds('-') == Some(('>', Kind::Arrow, Kind::Minus)),
        single_char_kind('=') is None && pair_kinds('=') == Some(('=', Kind::EqEq, Kind::Assign)),
        single_char_kind('!') is None && pair_kinds('!') == Some(('=', Kind::NotEq, Kind::Bang)),
        single_char_kind('>') is None && pair_kinds('>') == Some(('=', Kind::GreaterEq, Kind::Greater)),
        single_char_kind('<') is None && pair_kinds('<') == Some(('=', Kind::LessEq, Kind::Less)),
{
}

pub open spec fn tok(kind: Kind, span: Span) -> TokenView {
    TokenView { kind, span }
}

/// One step of the lexer at position `j`, which holds a character that is not
/// ignored: the token produced (if any), the next position, and the errors raised.
pub open spec fn step(cs: Seq<char>, j: int) -> (Option<TokenView>, int, Seq<DiagnosticView>) {
    let sp = span_at(cs, j);
    let c = cs[j];
    if spec_ident_start(c) {
        let e = ident_end(cs, j);
        (Some(tok(word_kind(cs.subrange(j, e)), sp)), e, Seq::empty())
    } else if spec_is_ascii_digit(c) {
        let e = number_end(cs, j, false);
        let (k, errs) = number_token(cs.subrange(j, e), sp);
        (Some(tok(k, sp)), e, errs)
    } else if c == '"' {
        let (v, e, errs) = scan_string(cs, j + 1, Seq::empty(), sp);
        (Some(tok(Kind::StringLiteral(v), sp)), e, errs)
    } else if single_char_kind(c) is Some {
        (Some(tok(single_char_kind(c)->0, sp)), j + 1, Seq::empty())
    } else if pair_kinds(c) is Some {
        let (second, two, one) = pair_kinds(c)->0;
        if j + 1 < cs.len() && cs[j + 1] == second {
            (Some(tok(two, sp)), j + 2, Seq::empty())
        } else {
            (Some(tok(one, sp)), j + 1, Seq::empty())
        }
    } else if c == '&' || c == '|' {
        if j + 1 < cs.len() && cs[j + 1] == c {
            (Some(tok(if c == '&' { Kind::AndAnd } else { Kind::OrOr }, sp)), j + 2, Seq::empty())
        } else {
            (
                None,
                j + 1,
                seq![
                    error_at(
                        Some(sp),
                        if c == '&' {
                            "Expected '&' for '&&' operator"@
                        } else {
                            "Expected '|' for '||' operator"@
                        },
                    ),
                ],
            )
        }
    } else {
        (None, j + 1, seq![error_at(Some(sp), "Unexpected character '"@.push(c) + "'"@)])
    }
}

pub proof fn lemma_step(cs: Seq<char>, j: int)
    requires
        0 <= j < cs.len(),
    ensures
        j < step(cs, j).1 <= cs.len() + 1,
{
    let c = cs[j];
    if spec_ident_start(c) {
        lemma_ident_end(cs, j + 1);
    } else if spec_is_ascii_digit(c) {
        lemma_number_end(cs, j + 1, false);
    } else if c == '"' {
        lemma_scan_string(cs, j + 1, Seq::empty(), span_at(cs, j));
    }
}

/// The tokens and errors that lexing yields from position `i` on.
pub open spec fn lex_from(cs: Seq<char>, i: int) -> (Seq<TokenView>, Seq<DiagnosticView>)
    decreases cs.len() + 1 - i,
{
    if i < 0 || i > cs.len() {
        (Seq::empty(), Seq::empty())
    } else {
        let j = skip_ignored(cs, i);
        if j >= cs.len() {
            (seq![tok(Kind::Eof, span_at(cs, j))], Seq::empty())
        } else {
            proof {
                lemma_skip_ignored(cs, i);
                lemma_step(cs, j);
            }
            let (t, k, errs) = step(cs, j);
            let (rest, rest_errs) = if k > cs.len() {
                lex_from(cs, cs.len() as int)
            } else {
                lex_from(cs, k)
            };
            (
                match t {
                    Some(t) => seq![t] + rest,
                    None => rest,
                },
                errs + rest_errs,
            )
        }
    }
}

/// The tokens of a whole source text, with the errors raised while lexing it.
pub open spec fn lex_spec(cs: Seq<char>) -> (Seq<TokenView>, Seq<DiagnosticView>) {
    lex_from(cs, 0)
}

/// Every diagnostic in the list is an error.
pub open spec fn all_errors(ds: Seq<DiagnosticView>) -> bool {
    forall|i: int| 0 <= i < ds.len() ==> (#[trigger] ds[i]).severity == crate::diagnostics::Severity::Error
}

proof fn lemma_all_errors_concat(a: Seq<DiagnosticView>, b: Seq<DiagnosticView>)
    requires
        all_errors(a),
        all_errors(b),
    ensures
        all_errors(a + b),
{
    assert forall|i: int| 0 <= i < (a + b).len() implies (#[trigger] (a + b)[i]).severity
        == crate::diagnostics::Severity::Error by {
        if i < a.len() {
            assert((a + b)[i] == a[i]);
        } else {
            assert((a + b)[i] == b[i - a.len()]);
        }
    }
}

proof fn lemma_scan_string_errors(cs: Seq<char>, i: int, acc: Seq<char>, span: Span)
    ensures
        all_errors(scan_string(cs, i, acc, span).2),
    decreases cs.len() - i,
{
    if 0 <= i < cs.len() && cs[i] != '"' {
        if cs[i] == '\\' {
            if i + 1 < cs.len() {
                let e = cs[i + 1];
                if e == 'n' {
                    lemma_scan_string_errors(cs, i + 2, acc.push('\n'), span);
                } else if e == 't' {
                    lemma_scan_string_errors(cs, i + 2, acc.push('\t'), span);
                } else if e == '"' {
                    lemma_scan_string_errors(cs, i + 2, acc.push('"'), span);
                } else if e == '(' {
                    lemma_scan_string_errors(cs, i + 2, acc.push('\\').push('('), span);
                } else if e == '\\' {
                    lemma_scan_string_errors(cs, i + 2, acc.push('\\'), span);
                } else {
                    lemma_scan_string_errors(cs, i + 2, acc.push(e), span);
                    let first = seq![error_at(Some(span), "Unknown escape sequence: \\"@.push(e))];
                    lemma_all_errors_concat(first, scan_string(cs, i + 2, acc.push(e), span).2);
                }
            }
        } else {
            lemma_scan_string_errors(cs, i + 1, acc.push(cs[i]), span);
        }
    }
}

proof fn lemma_step_errors(cs: Seq<char>, j: int)
    requires
        0 <= j < cs.len(),
    ensures
        all_errors(step(cs, j).2),
{
    if cs[j] == '"' && !spec_ident_start(cs[j]) && !spec_is_ascii_digit(cs[j]) {
        lemma_scan_string_errors(cs, j + 1, Seq::empty(), span_at(cs, j));
    }
}

proof fn lemma_lex_from_errors(cs: Seq<char>, i: int)
    ensures
        all_errors(lex_from(cs, i).1),
    decreases cs.len() + 1 - i,
{
    if 0 <= i <= cs.len() {
        let j = skip_ignored(cs, i);
        if j < cs.len() {
            lemma_skip_ignored(cs, i);
            lemma_step(cs, j);
            lemma_step_errors(cs, j);
            let k = step(cs, j).1;
            if k > cs.len() {
                lemma_lex_from_errors(cs, cs.len() as int);
                lemma_all_errors_concat(step(cs, j).2, lex_from(cs, cs.len() as int).1);
            } else {
                lemma_lex_from_errors(cs, k);
                lemma_all_errors_concat(step(cs, j).2, lex_from(cs, k).1);
            }
        }
    }
}

/// Lexing reports errors only: every diagnostic it raises is an error.
pub proof fn lemma_lex_reports_only_errors(cs: Seq<char>)
    ensures
        all_errors(lex_spec(cs).1),
{
    lemma_lex_from_errors(cs, 0);
}

pub open spec fn tokens_view(ts: Seq<Token>) -> Seq<TokenView> {
    ts.map_values(|t: Token| t@)
}

// ---------------------------------------------------------------------------
// The lexer
// ---------------------------------------------------------------------------

/// Splits `source` into tokens; lexical errors go to `diagnostics`. The result
/// always ends with an end-of-input token.
pub fn lex(source: &str, diagnostics: &mut Diagnostics) -> (tokens: Vec<Token>)
    requires
        source@.len() < usize::MAX,
    ensures
        tokens_view(tokens@) == lex_spec(source@).0,
        final(diagnostics)@ == old(diagnostics)@ + lex_spec(source@).1,
{
    let mut lexer = Lexer::new(source);
    lexer.lex_all(diagnostics)
}

struct Lexer {
    chars: Vec<char>,
    index: usize,
    line: usize,
    column: usize,
}

impl Lexer {
    spec fn wf(&self) -> bool {
        &&& self.chars@.len() < usize::MAX
        &&& self.index <= self.chars@.len()
        &&& self.line == line_at(self.chars@, self.index as int)
        &&& self.column == col_at(self.chars@, self.index as int)
    }

    fn new(source: &str) -> (l: Lexer)
        requires
            source@.len() < usize::MAX,
        ensures
            l.wf(),
            l.chars@ == source@,
            l.index == 0,
    {
        Lexer { chars: to_chars(source), index: 0, line: 1, column: 1 }
    }

    fn current(&self) -> (c: Option<char>)
        requires
            self.wf(),
        ensures
            c == if self.index < self.chars@.len() {
                Some(self.chars@[self.index as int])
            } else {
                None::<char>
            },
    {
        if self.index < self.chars.len() {
            Some(self.chars[self.index])
        } else {
            None
        }
    }

    fn peek(&self) -> (c: Option<char>)
        requires
            self.wf(),
        ensures
            c == if self.index + 1 < self.chars@.len() {
                Some(self.chars@[self.index + 1])
            } else {
                None::<char>
            },
    {
        if self.index + 1 < self.chars.len() {
            Some(self.chars[self.index + 1])
        } else {
            None
        }
    }

    fn bump(&mut self)
        requires
            old(self).wf(),
        ensures
            final(self).wf(),
            final(self).chars@ == old(self).chars@,
            final(self).index == if old(self).index < old(self).chars@.len() {
                old(self).index + 1
            } else {
                old(self).index as int
            },
    {
        if self.index < self.chars.len() {
            proof {
                lemma_pos_bounds(self.chars@, self.index as int);
            }
            let ch = self.chars[self.index];
            self.index += 1;
            if ch == '\n' {
                self.line += 1;
                self.column = 1;
            } else {
                self.column += 1;
            }
        }
    }

    fn span(&self) -> (s: Span)
        requires
            self.wf(),
        ensures
            s == span_at(self.chars@, self.index as int),
    {
        Span::new(self.line, self.column)
    }

    fn skip_ignored(&mut self)
        requires
            old(self).wf(),
        ensures
            final(self).wf(),
            final(self).chars@ == old(self).chars@,
            final(self).index == skip_ignored(old(self).chars@, old(self).index as int),
    {
        let ghost cs = self.chars@;
        let ghost start = self.index as int;
        loop
            invariant_except_break
                skip_ignored(cs, start) == skip_ignored(cs, self.index as int),
            invariant
                self.wf(),
                self.chars@ == cs,
                start <= self.index <= cs.len(),
            ensures
                self.wf(),
                self.chars@ == cs,
                self.index == skip_ignored(cs, start),
            decreases cs.len() - self.index,
        {
            let ghost before = self.index as int;
            while self.index < self.chars.len() && is_whitespace(self.chars[self.index])
                invariant
                    self.wf(),
                    self.chars@ == cs,
                    before <= self.index <= cs.len(),
                    skip_ws(cs, before) == skip_ws(cs, self.index as int),
                decreases cs.len() - self.index,
            {
                self.bump();
            }
            proof {
                lemma_skip_ws(cs, before);
                assert(skip_ws(cs, self.index as int) == self.index);
            }
            if self.current() == Some('/') && self.peek() == Some('/') {
                let ghost j = self.index as int;
                proof {
                    lemma_comment_end(cs, j);
                }
                loop
                    invariant_except_break
                        comment_end(cs, j) == comment_end(cs, self.index as int),
                    invariant
                        self.wf(),
                        self.chars@ == cs,
                        j <= self.index <= cs.len(),
                    ensures
                        self.wf(),
                        self.chars@ == cs,
                        self.index == comment_end(cs, j),
                    decreases cs.len() - self.index,
                {
                    match self.current() {
                        Some(ch) => {
                            let ghost at = self.index as int;
                            self.bump();
                            if ch == '\n' {
                                assert(comment_end(cs, at) == at + 1);
                                break;
                            }
                            assert(comment_end(cs, at) == comment_end(cs, at + 1));
                        },
                        None => {
                            assert(comment_end(cs, self.index as int) == self.index);
                            break;
                        },
                    }
                }
                assert(skip_ignored(cs, before) == skip_ignored(cs, comment_end(cs, j)));
                continue;
            }
            assert(skip_ignored(cs, before) == self.index);
            break;
        }
    }

    /// Reads a word starting at the current identifier character.
    fn lex_identifier(&mut self, span: Span) -> (t: Token)
        requires
            old(self).wf(),
            old(self).index < old(self).chars@.len(),
        ensures
            final(self).wf(),
            final(self).chars@ == old(self).chars@,
            final(self).index == ident_end(old(self).chars@, old(self).index as int),
            t@ == tok(
                word_kind(
                    old(self).chars@.subrange(
                        old(self).index as int,
                        ident_end(old(self).chars@, old(self).index as int),
                    ),
                ),
                span,
            ),
    {
        let ghost cs = self.chars@;
        let start = self.index;
        while self.index < self.chars.len() && is_ident_continue(self.chars[self.index])
            invariant
                self.wf(),
                self.chars@ == cs,
                start <= self.index <= cs.len(),
                ident_end(cs, start as int) == ident_end(cs, self.index as int),
            decreases cs.len() - self.index,
        {
            self.bump();
        }
        let value = string_from_chars(self.chars.as_slice(), start, self.index);
        let kind = keyword_kind(value);
        Token { kind, span }
    }

    /// Reads a number literal.
    fn lex_number(&mut self, span: Span, diagnostics: &mut Diagnostics) -> (t: Token)
        requires
            old(self).wf(),
            old(self).index < old(self).chars@.len(),
        ensures
            final(self).wf(),
            final(self).chars@ == old(self).chars@,
            final(self).index == number_end(old(self).chars@, old(self).index as int, false),
            ({
                let (k, errs) = number_token(
                    old(self).chars@.subrange(
                        old(self).index as int,
                        number_end(old(self).chars@, old(self).index as int, false),
                    ),
                    span,
                );
                &&& t@ == tok(k, span)
                &&& final(diagnostics)@ == old(diagnostics)@ + errs
            }),
    {
        let ghost cs = self.chars@;
        let start = self.index;
        let mut has_dot = false;
        loop
            invariant
                self.wf(),
                self.chars@ == cs,
                start <= self.index <= cs.len(),
                number_end(cs, start as int, false) == number_end(cs, self.index as int, has_dot),
                has_dot == contains_char(cs.subrange(start as int, self.index as int), '.'),
                forall|k: int|
                    start <= k < self.index ==> spec_is_ascii_digit(#[trigger] cs[k]) || cs[k]
                        == '.',
            ensures
                self.index == number_end(cs, start as int, false),
            decreases cs.len() - self.index,
        {
            let ghost at = self.index as int;
            match self.current() {
                Some(ch) => {
                    if is_ascii_digit(ch) {
                        self.bump();
                    } else if ch == '.' && !has_dot {
                        has_dot = true;
                        self.bump();
                    } else {
                        assert(number_end(cs, at, has_dot) == at);
                        break;
                    }
                    proof {
                        let old_sub = cs.subrange(start as int, at);
                        let new_sub = cs.subrange(start as int, at + 1);
                        assert(new_sub == old_sub.push(ch));
                        if contains_char(new_sub, '.') {
                            let k = choose|k: int| 0 <= k < new_sub.len() && new_sub[k] == '.';
                            if k < old_sub.len() {
                                assert(old_sub[k] == '.');
                            }
                        }
                        if contains_char(old_sub, '.') {
                            let k = choose|k: int| 0 <= k < old_sub.len() && old_sub[k] == '.';
                            assert(new_sub[k] == '.');
                        }
                        if ch == '.' {
                            assert(new_sub[at - start] == '.');
                        }
                    }
                },
                None => {
                    assert(number_end(cs, at, has_dot) == at);
                    break;
                },
            }
        }
        let text = string_from_chars(self.chars.as_slice(), start, self.index);
        proof {
            if !has_dot {
                assert forall|k: int| start <= k < self.index implies spec_is_ascii_digit(
                    #[trigger] cs[k],
                ) by {
                    if cs[k] == '.' {
                        assert(cs.subrange(start as int, self.index as int)[k - start] == '.');
                    }
                }
            }
        }
        let kind = if has_dot {
            TokenKind::FloatLiteral(text)
        } else {
            match parse_digits_i64(self.chars.as_slice(), start, self.index) {
                Some(v) => TokenKind::IntLiteral(v),
                None => {
                    let mut message = string_of("Invalid int literal: ");
                    push_str(&mut message, text.as_str());
                    diagnostics.error(Some(span), message);
                    TokenKind::IntLiteral(0)
                },
            }
        };
        Token { kind, span }
    }

    /// Reads a string literal starting at its opening quote.
    fn lex_string(&mut self, span: Span, diagnostics: &mut Diagnostics) -> (t: Token)
        requires
            old(self).wf(),
            old(self).index < old(self).chars@.len(),
            old(self).chars@[old(self).index as int] == '"',
        ensures
            final(self).wf(),
            final(self).chars@ == old(self).chars@,
            ({
                let (v, e, errs) = scan_string(
                    old(self).chars@,
                    old(self).index + 1,
                    Seq::empty(),
                    span,
                );
                &&& final(self).index == if e > old(self).chars@.len() {
                    old(self).chars@.len() as int
                } else {
                    e
                }
                &&& t@ == tok(Kind::StringLiteral(v), span)
                &&& final(diagnostics)@ == old(diagnostics)@ + errs
            }),
    {
        let ghost cs = self.chars@;
        let ghost d0 = diagnostics@;
        self.bump();
        let mut value = String::new();
        let ghost target = scan_string(cs, self.index as int, Seq::empty(), span);
        proof {
            lemma_scan_string(cs, self.index as int, Seq::empty(), span);
        }
        loop
            invariant_except_break
                ({
                    let r = scan_string(cs, self.index as int, value@, span);
                    &&& r.0 == target.0
                    &&& r.1 == target.1
                    &&& d0 + target.2 == diagnostics@ + r.2
                }),
            invariant
                self.wf(),
                self.chars@ == cs,
                cs == old(self).chars@,
                d0 == old(diagnostics)@,
                target == scan_string(cs, old(self).index + 1, Seq::empty(), span),
                1 <= self.index <= cs.len(),
            ensures
                self.wf(),
                self.chars@ == cs,
                value@ == target.0,
                self.index == target.1,
                diagnostics@ == d0 + target.2,
            decreases cs.len() - self.index,
        {
            let ghost at = self.index as int;
            let ghost v0 = value@;
            match self.current() {
                Some(ch) => {
                    if ch == '"' {
                        self.bump();
                        assert(scan_string(cs, at, v0, span) == (v0, at + 1, Seq::<DiagnosticView>::empty()));
                        assert(diagnostics@ + Seq::<DiagnosticView>::empty() == diagnostics@);
                        break;
                    } else if ch == '\\' {
                        self.bump();
                        match self.current() {
                            Some(e) => {
                                if e == 'n' {
                                    push_char(&mut value, '\n');
                                    self.bump();
                                } else if e == 't' {
                                    push_char(&mut value, '\t');
                                    self.bump();
                                } else if e == '"' {
                                    push_char(&mut value, '"');
                                    self.bump();
                                } else if e == '(' {
                                    push_char(&mut value, '\\');
                                    push_char(&mut value, '(');
                                    self.bump();
                                } else if e == '\\' {
                                    push_char(&mut value, '\\');
                                    self.bump();
                                } else {
                                    let mut message = string_of("Unknown escape sequence: \\");
                                    push_char(&mut message, e);
                                    let ghost before = diagnostics@;
                                    diagnostics.error(Some(span), message);
                                    proof {
                                        let r = scan_string(cs, at + 2, v0.push(e), span);
                                        let one = seq![
                                            error_at(Some(span), "Unknown escape sequence: \\"@.push(e)),
                                        ];
                                        assert(diagnostics@ == before + one);
                                        assert(before + (one + r.2) == diagnostics@ + r.2);
                                    }
                                    push_char(&mut value, e);
                                    self.bump();
                                }
                            },
                            None => {
                                let ghost before = diagnostics@;
                                let message = string_of("Unterminated escape sequence");
                                diagnostics.error(Some(span), message);
                                let message2 = string_of("Unterminated string literal");
                                diagnostics.error(Some(span), message2);
                                proof {
                                    let two = seq![
                                        error_at(Some(span), "Unterminated escape sequence"@),
                                        error_at(Some(span), "Unterminated string literal"@),
                                    ];
                                    assert(scan_string(cs, at, v0, span) == (v0, at + 1, two));
                                    assert(diagnostics@ =~= before + two);
                                }
                                return Token { kind: TokenKind::StringLiteral(value), span };
                            },
                        }
                    } else {
                        push_char(&mut value, ch);
                        self.bump();
                    }
                },
                None => {
                    let ghost before = diagnostics@;
                    let message = string_of("Unterminated string literal");
                    diagnostics.error(Some(span), message);
                    proof {
                        let one = seq![error_at(Some(span), "Unterminated string literal"@)];
                        assert(scan_string(cs, at, v0, span) == (v0, at, one));
                        assert(diagnostics@ =~= before + one);
                    }
                    return Token { kind: TokenKind::StringLiteral(value), span };
                },
            }
        }
        Token { kind: TokenKind::StringLiteral(value), span }
    }

    /// Reads the next token at a position that holds a character that is not
    /// ignored.
    fn next_token(&mut self, diagnostics: &mut Diagnostics) -> (t: Option<Token>)
        requires
            old(self).wf(),
            old(self).index < old(self).chars@.len(),
        ensures
            final(self).wf(),
            final(self).chars@ == old(self).chars@,
            ({
                let (st, k, errs) = step(old(self).chars@, old(self).index as int);
                &&& final(self).index == if k > old(self).chars@.len() {
                    old(self).chars@.len() as int
                } else {
                    k
                }
                &&& match t {
                    Some(t) => st == Some(t@),
                    None => st is None,
                }
                &&& final(diagnostics)@ == old(diagnostics)@ + errs
            }),
    {
        let ghost cs = self.chars@;
        let ghost j = self.index as int;
        let span = self.span();
        let ch = self.chars[self.index];
        if is_ident_start(ch) {
            let t = self.lex_identifier(span);
            assert(diagnostics@ == diagnostics@ + Seq::<DiagnosticView>::empty());
            return Some(t);
        }
        if is_ascii_digit(ch) {
            return Some(self.lex_number(span, diagnostics));
        }
        if ch == '"' {
            return Some(self.lex_string(span, diagnostics));
        }
        assert(diagnostics@ == diagnostics@ + Seq::<DiagnosticView>::empty());
        match single_char_token(ch) {
            Some(kind) => {
                self.bump();
                return Some(Token { kind, span });
            },
            None => {},
        }
        match pair_token(ch) {
            Some((second, two, one)) => {
                self.bump();
                if self.current() == Some(second) {
                    self.bump();
                    return Some(Token { kind: two, span });
                } else {
                    return Some(Token { kind: one, span });
                }
            },
            None => {},
        }
        if ch == '&' || ch == '|' {
            self.bump();
            if self.current() == Some(ch) {
                self.bump();
                let kind = if ch == '&' { TokenKind::AndAnd } else { TokenKind::OrOr };
                return Some(Token { kind, span });
            } else {
                let message = if ch == '&' {
                    string_of("Expected '&' for '&&' operator")
                } else {
                    string_of("Expected '|' for '||' operator")
                };
                diagnostics.error(Some(span), message);
                return None;
            }
        }
        self.bump();
        let mut message = string_of("Unexpected character '");
        push_char(&mut message, ch);
        push_str(&mut message, "'");
        diagnostics.error(Some(span), message);
        None
    }

    /// Reads all tokens up to and including the end of input.
    fn lex_all(&mut self, diagnostics: &mut Diagnostics) -> (tokens: Vec<Token>)
        requires
            old(self).wf(),
            old(self).index == 0,
        ensures
            tokens_view(tokens@) == lex_spec(old(self).chars@).0,
            final(diagnostics)@ == old(diagnostics)@ + lex_spec(old(self).chars@).1,
    {
        let ghost cs = self.chars@;
        let ghost d0 = diagnostics@;
        let mut tokens: Vec<Token> = Vec::new();
        loop
            invariant_except_break
                tokens_view(tokens@) + lex_from(cs, self.index as int).0 == lex_spec(cs).0,
                diagnostics@ + lex_from(cs, self.index as int).1 == d0 + lex_spec(cs).1,
            invariant
                self.wf(),
                self.chars@ == cs,
                self.index <= cs.len(),
            ensures
                tokens_view(tokens@) == lex_spec(cs).0,
                diagnostics@ == d0 + lex_spec(cs).1,
            decreases cs.len() + 1 - self.index,
        {
            let ghost i = self.index as int;
            self.skip_ignored();
            proof {
                lemma_skip_ignored(cs, i);
            }
            let span = self.span();
            if self.index >= self.chars.len() {
                let t = Token { kind: TokenKind::Eof, span };
                let ghost before = tokens_view(tokens@);
                tokens.push(t);
                assert(tokens_view(tokens@) == before.push(t@));
                assert(lex_from(cs, i).0 == seq![t@]);
                assert(lex_from(cs, i).1 == Seq::<DiagnosticView>::empty());
                assert(diagnostics@ + Seq::<DiagnosticView>::empty() == diagnostics@);
                assert(before + seq![t@] == before.push(t@));
                break;
            }
            let ghost j = self.index as int;
            let ghost dj = diagnostics@;
            proof {
                lemma_step(cs, j);
            }
            let t = self.next_token(diagnostics);
            proof {
                let (st, k, errs) = step(cs, j);
                let k2 = if k > cs.len() { cs.len() as int } else { k };
                assert(self.index == k2);
                let rest = lex_from(cs, k2);
                assert(lex_from(cs, i).1 == errs + rest.1);
                assert(diagnostics@ == dj + errs);
                assert(dj + (errs + rest.1) == diagnostics@ + rest.1);
            }
            match t {
                Some(t) => {
                    let ghost before = tokens_view(tokens@);
                    let ghost tv = t@;
                    tokens.push(t);
                    proof {
                        assert(tokens_view(tokens@) == before.push(tv));
                        let rest = lex_from(cs, self.index as int);
                        assert(lex_from(cs, i).0 == seq![tv] + rest.0);
                        assert(before + (seq![tv] + rest.0) == before.push(tv) + rest.0);
                    }
                },
                None => {},
            }
        }
        tokens
    }
}

fn keyword_kind(value: String) -> (k: TokenKind)
    ensures
        k@ == word_kind(value@),
{
    let s = value.as_str();
    if str_eq(s, "import") { TokenKind::Import }
    else if str_eq(s, "body") { TokenKind::Body }
    else if str_eq(s, "let") { TokenKind::Let }
    else if str_eq(s, "func") { TokenKind::Func }
    else if str_eq(s, "return") { TokenKind::Return }
    else if str_eq(s, "if") { TokenKind::If }
    else if str_eq(s, "else") { TokenKind::Else }
    else if str_eq(s, "while") { TokenKind::While }
    else if str_eq(s, "do") { TokenKind::Do }
    else if str_eq(s, "for") { TokenKind::For }
    else if str_eq(s, "new") { TokenKind::New }
    else if str_eq(s, "int") { TokenKind::IntType }
    else if str_eq(s, "float") { TokenKind::FloatType }
    else if str_eq(s, "string") { TokenKind::StringType }
    else if str_eq(s, "bool") { TokenKind::BoolType }
    else if str_eq(s, "true") { TokenKind::True }
    else if str_eq(s, "false") { TokenKind::False }
    else { TokenKind::Identifier(value) }
}

fn single_char_token(c: char) -> (k: Option<TokenKind>)
    ensures
        match k {
            Some(k) => single_char_kind(c) == Some(k@),
            None => single_char_kind(c) is None,
        },
{
    if c == '(' { Some(TokenKind::LParen) }
    else if c == ')' { Some(TokenKind::RParen) }
    else if c == '{' { Some(TokenKind::LBrace) }
    else if c == '}' { Some(TokenKind::RBrace) }
    else if c == '[' { Some(TokenKind::LBracket) }
    else if c == ']' { Some(TokenKind::RBracket) }
    else if c == ':' { Some(TokenKind::Colon) }
    else if c == ';' { Some(TokenKind::Semicolon) }
    else if c == ',' { Some(TokenKind::Comma) }
    else if c == '.' { Some(TokenKind::Dot) }
    else if c == '?' { Some(TokenKind::Question) }
    else if c == '+' { Some(TokenKind::Plus) }
    else if c == '*' { Some(TokenKind::Star) }
    else if c == '%' { Some(TokenKind::Percent) }
    else if c == '/' { Some(TokenKind::Slash) }
    else { None }
}

fn pair_token(c: char) -> (r: Option<(char, TokenKind, TokenKind)>)
    ensures
        match r {
            Some((second, two, one)) => pair_kinds(c) == Some((second, two@, one@)),
            None => pair_kinds(c) is None,
        },
{
    if c == '-' { Some(('>', TokenKind::Arrow, TokenKind::Minus)) }
    else if c == '=' { Some(('=', TokenKind::EqEq, TokenKind::Assign)) }
    else if c == '!' { Some(('=', TokenKind::NotEq, TokenKind::Bang)) }
    else if c == '>' { Some(('=', TokenKind::GreaterEq, TokenKind::Greater)) }
    else if c == '<' { Some(('=', TokenKind::LessEq, TokenKind::Less)) }
    else { None }
}

/// The value of the decimal digits `cs[from..to]`, when it fits in an `i64`.
fn parse_digits_i64(cs: &[char], from: usize, to: usize) -> (r: Option<i64>)
    requires
        from <= to <= cs@.len(),
        forall|k: int| from <= k < to ==> spec_is_ascii_digit(#[trigger] cs@[k]),
    ensures
        match r {
            Some(v) => digits_value(cs@.subrange(from as int, to as int)) <= i64::MAX
                && v == digits_value(cs@.subrange(from as int, to as int)),
            None => digits_value(cs@.subrange(from as int, to as int)) > i64::MAX,
        },
{
    let mut v: i64 = 0;
    let mut i = from;
    while i < to
        invariant
            from <= i <= to <= cs@.len(),
            forall|k: int| from <= k < to ==> spec_is_ascii_digit(#[trigger] cs@[k]),
            v == digits_value(cs@.subrange(from as int, i as int)),
            0 <= v,
        decreases to - i,
    {
        let ghost prev = cs@.subrange(from as int, i as int);
        let ghost next = cs@.subrange(from as int, i + 1);
        assert(next.drop_last() == prev);
        assert(next.last() == cs@[i as int]);
        let d = digit_value(cs[i]);
        assert(digits_value(next) == digits_value(prev) * 10 + d);
        if v > (i64::MAX - d) / 10 {
            proof {
                lemma_digits_value_grows(cs@, from as int, i + 1, to as int);
                assert(v * 10 + d > i64::MAX) by (nonlinear_arith)
                    requires
                        v > (i64::MAX - d) / 10,
                        0 <= d < 10,
                ;
            }
            return None;
        }
        assert(v * 10 + d <= i64::MAX) by (nonlinear_arith)
            requires
                v <= (i64::MAX - d) / 10,
                0 <= d < 10,
                0 <= v,
        ;
        v = v * 10 + d;
        i += 1;
    }
    Some(v)
}

fn digit_value(c: char) -> (d: i64)
    requires
        spec_is_ascii_digit(c),
    ensures
        d == char_digit_value(c),
        0 <= d < 10,
{
    (c as u32 - '0' as u32) as i64
}

proof fn lemma_digits_value_grows(cs: Seq<char>, from: int, mid: int, to: int)
    requires
        0 <= from <= mid <= to <= cs.len(),
    ensures
        digits_value(cs.subrange(from, mid)) <= digits_value(cs.subrange(from, to)),
    decreases to - mid,
{
    if mid < to {
        lemma_digits_value_grows(cs, from, mid, to - 1);
        let s = cs.subrange(from, to);
        assert(s.drop_last() == cs.subrange(from, to - 1));
    }
}

/// Lexing always ends with exactly one end-of-input token, as its last token.
pub proof fn lemma_lex_ends_with_eof(cs: Seq<char>, i: int)
    requires
        0 <= i <= cs.len(),
    ensures
        lex_from(cs, i).0.len() > 0,
        lex_from(cs, i).0.last().kind == Kind::Eof,
        forall|k: int|
            0 <= k < lex_from(cs, i).0.len() - 1 ==> lex_from(cs, i).0[k].kind != Kind::Eof,
    decreases cs.len() + 1 - i,
{
    lemma_skip_ignored(cs, i);
    let j = skip_ignored(cs, i);
    if j < cs.len() {
        lemma_step(cs, j);
        let (t, k, errs) = step(cs, j);
        let k2 = if k > cs.len() { cs.len() as int } else { k };
        lemma_lex_ends_with_eof(cs, k2);
        let rest = lex_from(cs, k2).0;
        match t {
            Some(tt) => {
                assert(tt.kind != Kind::Eof) by {
                    lemma_step_not_eof(cs, j);
                }
                let all = seq![tt] + rest;
                assert forall|m: int| 0 <= m < all.len() - 1 implies all[m].kind != Kind::Eof by {
                    if m > 0 {
                        assert(all[m] == rest[m - 1]);
                    }
                }
                assert(all.last() == rest.last());
            },
            None => {},
        }
    }
}

proof fn lemma_step_not_eof(cs: Seq<char>, j: int)
    requires
        0 <= j < cs.len(),
        step(cs, j).0 is Some,
    ensures
        step(cs, j).0->0.kind != Kind::Eof,
{
    let c = cs[j];
    if spec_ident_start(c) {
        let w = cs.subrange(j, ident_end(cs, j));
        assert(word_kind(w) != Kind::Eof);
    }
}

/// No string literal that lexing yields is longer than the source text.
pub proof fn lemma_lex_strings_shorter(cs: Seq<char>, i: int)
    requires
        0 <= i <= cs.len(),
    ensures
        forall|k: int|
            0 <= k < lex_from(cs, i).0.len() ==> token_str_len(#[trigger] lex_from(cs, i).0[k])
                <= cs.len(),
    decreases cs.len() + 1 - i,
{
    lemma_skip_ignored(cs, i);
    let j = skip_ignored(cs, i);
    if j < cs.len() {
        lemma_step(cs, j);
        let (t, k, errs) = step(cs, j);
        let k2 = if k > cs.len() { cs.len() as int } else { k };
        lemma_lex_strings_shorter(cs, k2);
        let rest = lex_from(cs, k2).0;
        match t {
            Some(tt) => {
                assert(token_str_len(tt) < cs.len()) by {
                    if cs[j] == '"' {
                        lemma_scan_string(cs, j + 1, Seq::empty(), span_at(cs, j));
                    } else if spec_ident_start(cs[j]) {
                        let w = cs.subrange(j, ident_end(cs, j));
                        assert(!(word_kind(w) is StringLiteral));
                    }
                }
                let all = seq![tt] + rest;
                assert forall|m: int| 0 <= m < all.len() implies token_str_len(#[trigger] all[m])
                    <= cs.len() by {
                    if m > 0 {
                        assert(all[m] == rest[m - 1]);
                    }
                }
            },
            None => {},
        }
    }
}

} // verus!
