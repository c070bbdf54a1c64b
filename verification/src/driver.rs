use vstd::prelude::*;

use crate::ast::Program;
use crate::diagnostics::{error_count, extends, has_error, lemma_has_error_iff_count, Diagnostics};
use crate::lexer::{lemma_lex_ends_with_eof, lex, lex_spec, tokens_view};
use crate::parser::{parse, program_derives, views};
use crate::readings::same_program;
use crate::text::{extension_of, path_extension, push_str, str_eq, string_of};

verus! {

/// Whether a path names a source file: its extension is `checkbe`.
pub open spec fn is_source_path(path: Seq<char>) -> bool {
    path_extension(path) == Some("checkbe"@)
}

/// Accepts a path with the `checkbe` extension; for any other path the error
/// says which path was given.
pub fn check_source_path(path: &str) -> (r: Result<(), String>)
    ensures
        r is Ok <==> is_source_path(path@),
        r matches Err(m) ==> m@ == "Expected an input file with .checkbe extension, got: "@ + path@,
{
    let accepted = match extension_of(path) {
        Some(extension) => str_eq(extension.as_str(), "checkbe"),
        None => false,
    };
    if accepted {
        Ok(())
    } else {
        let mut message = string_of("Expected an input file with .checkbe extension, got: ");
        push_str(&mut message, path);
        Err(message)
    }
}

/// Lexes and parses the text of one source file, into diagnostics of its own.
/// A lexical error stops it before parsing, and a parse error stops it too, even
/// where the parser recovered; a program comes back exactly when nothing went
/// wrong, as the reading of the tokens in the grammar.
pub fn parse_source(source: &str) -> (r: (Diagnostics, Result<Program, String>))
    requires
        source@.len() < usize::MAX,
    ensures
        extends(lex_spec(source@).1, r.0@),
        has_error(lex_spec(source@).1) ==> r.0@ == lex_spec(source@).1 && (r.1 matches Err(m)
            && m@ == "Lexical analysis failed"@),
        !has_error(lex_spec(source@).1) && r.1 is Err ==> has_error(r.0@) && r.1->Err_0@
            == "Parsing failed"@,
        r.1 is Ok <==> !has_error(r.0@),
        !has_error(r.0@) ==> (r.1 matches Ok(p) && program_derives(lex_spec(source@).0, p)),
        !has_error(lex_spec(source@).1) ==> forall|p: Program|
            #[trigger] program_derives(lex_spec(source@).0, p) ==> (r.1 matches Ok(x) && same_program(x, p))
                && r.0@ == lex_spec(source@).1,
{
    let mut diagnostics = Diagnostics::new();
    let tokens = lex(source, &mut diagnostics);
    proof {
        lemma_lex_ends_with_eof(source@, 0);
        assert(diagnostics@ =~= lex_spec(source@).1);
        assert(views(tokens@) == tokens_view(tokens@));
        assert(views(tokens@).last() == tokens@.last()@);
    }
    if diagnostics.has_errors() {
        return (diagnostics, Err(string_of("Lexical analysis failed")));
    }
    let ghost lexed = diagnostics@;
    proof {
        assert(views(tokens@) == lex_spec(source@).0);
    }
    let parsed = parse(tokens, &mut diagnostics);
    proof {
        lemma_has_error_iff_count(lexed);
        lemma_has_error_iff_count(diagnostics@);
    }
    match parsed {
        Some(program) => {
            if diagnostics.has_errors() {
                (diagnostics, Err(string_of("Parsing failed")))
            } else {
                (diagnostics, Ok(program))
            }
        },
        None => (diagnostics, Err(string_of("Parsing failed"))),
    }
}

} // verus!
