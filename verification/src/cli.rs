use vstd::prelude::*;

use crate::diagnostics::{count_severity, Diagnostic, DiagnosticView, Diagnostics, Severity};
use crate::module_system::string_views;
use crate::text::{decimal, file_stem_of, path_file_stem, push_str, str_eq, string_of, usize_to_string};

verus! {

/// What the command line asks for.
#[derive(Debug)]
pub enum CliCommand {
    Compile { source_paths: Vec<String>, output_path: String },
    Install { prefix: String },
}

/// A command as plain values.
pub enum CliCommandView {
    Compile { source_paths: Seq<Seq<char>>, output_path: Seq<char> },
    Install { prefix: Seq<char> },
}

impl View for CliCommand {
    type V = CliCommandView;

    open spec fn view(&self) -> CliCommandView {
        match self {
            CliCommand::Compile { source_paths, output_path } => CliCommandView::Compile {
                source_paths: string_views(source_paths@),
                output_path: output_path@,
            },
            CliCommand::Install { prefix } => CliCommandView::Install { prefix: prefix@ },
        }
    }
}

pub open spec fn usage_text() -> Seq<char> {
    "Usage:\n  checkbe <source.checkbe> [more.checkbe ...] -o <output_binary>\n  checkbe --install [--prefix <path>]"@
}

pub open spec fn unknown_argument(arg: Seq<char>) -> Seq<char> {
    "Unknown argument '"@ + arg + "'.\n"@ + usage_text()
}

/// The install prefix that the arguments from `index` on select.
pub open spec fn parse_install_args(args: Seq<Seq<char>>, index: int, prefix: Seq<char>) -> Result<
    Seq<char>,
    Seq<char>,
>
    decreases args.len() - index,
{
    if index < 0 || index >= args.len() {
        Ok(prefix)
    } else if args[index] == "--prefix"@ {
        if index + 1 < args.len() {
            parse_install_args(args, index + 2, args[index + 1])
        } else {
            Err(usage_text())
        }
    } else {
        Err(unknown_argument(args[index]))
    }
}

/// The sources and the output that the arguments from `index` on give.
pub open spec fn parse_compile_args(
    args: Seq<Seq<char>>,
    index: int,
    sources: Seq<Seq<char>>,
    output: Option<Seq<char>>,
) -> Result<(Seq<Seq<char>>, Option<Seq<char>>), Seq<char>>
    decreases args.len() - index,
{
    if index < 0 || index >= args.len() {
        Ok((sources, output))
    } else if args[index] == "-o"@ {
        if index + 1 < args.len() {
            parse_compile_args(args, index + 2, sources, Some(args[index + 1]))
        } else {
            Err(usage_text())
        }
    } else if args[index].len() > 0 && args[index][0] == '-' {
        Err(unknown_argument(args[index]))
    } else {
        parse_compile_args(args, index + 1, sources.push(args[index]), output)
    }
}

/// The binary a source compiles to when no output is given: its file stem, or
/// `a.out` when it has none.
pub open spec fn default_output(source: Seq<char>) -> Seq<char> {
    match path_file_stem(source) {
        Some(stem) => stem,
        None => "a.out"@,
    }
}

/// What the command line (program name first) asks for, or the message that
/// refuses it.
pub open spec fn cli_spec(args: Seq<Seq<char>>) -> Result<CliCommandView, Seq<char>> {
    if args.len() < 2 {
        Err(usage_text())
    } else if args[1] == "--help"@ || args[1] == "-h"@ {
        Err(usage_text())
    } else if args[1] == "--install"@ {
        match parse_install_args(args, 2, "/usr/local"@) {
            Ok(prefix) => Ok(CliCommandView::Install { prefix }),
            Err(e) => Err(e),
        }
    } else {
        match parse_compile_args(args, 1, Seq::empty(), None) {
            Ok((sources, output)) => if sources.len() == 0 {
                Err(usage_text())
            } else {
                Ok(
                    CliCommandView::Compile {
                        source_paths: sources,
                        output_path: match output {
                            Some(o) => o,
                            None => default_output(sources[0]),
                        },
                    },
                )
            },
            Err(e) => Err(e),
        }
    }
}

proof fn lemma_plain_sources(args: Seq<Seq<char>>, index: int, sources: Seq<Seq<char>>)
    requires
        1 <= index <= args.len(),
        forall|i: int|
            index <= i < args.len() ==> #[trigger] args[i] != "-o"@ && !(args[i].len() > 0
                && args[i][0] == '-'),
    ensures
        parse_compile_args(args, index, sources, None) == Ok::<
            (Seq<Seq<char>>, Option<Seq<char>>),
            Seq<char>,
        >((sources + args.subrange(index, args.len() as int), None)),
    decreases args.len() - index,
{
    if index < args.len() {
        assert(args[index] != "-o"@);
        lemma_plain_sources(args, index + 1, sources.push(args[index]));
        assert(sources.push(args[index]) + args.subrange(index + 1, args.len() as int) =~= sources
            + args.subrange(index, args.len() as int));
    } else {
        assert(sources + args.subrange(index, args.len() as int) =~= sources);
    }
}

/// Without `-o`, the sources are all the arguments and the binary is named
/// after the first source's file stem.
pub proof fn lemma_output_defaults_to_stem(args: Seq<Seq<char>>)
    requires
        args.len() >= 2,
        args[1] != "--help"@ && args[1] != "-h"@ && args[1] != "--install"@,
        forall|i: int|
            1 <= i < args.len() ==> #[trigger] args[i] != "-o"@ && !(args[i].len() > 0
                && args[i][0] == '-'),
    ensures
        cli_spec(args) == Ok::<CliCommandView, Seq<char>>(
            CliCommandView::Compile {
                source_paths: args.subrange(1, args.len() as int),
                output_path: default_output(args[1]),
            },
        ),
{
    lemma_plain_sources(args, 1, Seq::empty());
    assert(Seq::<Seq<char>>::empty() + args.subrange(1, args.len() as int) =~= args.subrange(
        1,
        args.len() as int,
    ));
}

/// The usage text.
pub fn usage() -> (s: String)
    ensures
        s@ == usage_text(),
{
    string_of(
        "Usage:\n  checkbe <source.checkbe> [more.checkbe ...] -o <output_binary>\n  checkbe --install [--prefix <path>]",
    )
}

fn unknown_argument_message(arg: &str) -> (s: String)
    ensures
        s@ == unknown_argument(arg@),
{
    let mut message = string_of("Unknown argument '");
    push_str(&mut message, arg);
    push_str(&mut message, "'.\n");
    let text = usage();
    push_str(&mut message, text.as_str());
    message
}

/// The output name for a source with the given file stem; `a.out` stands in for
/// a missing stem.
pub fn output_name_for_stem(stem: Option<String>) -> (r: String)
    ensures
        r@ == match stem {
            Some(s) => s@,
            None => "a.out"@,
        },
{
    match stem {
        Some(s) => s,
        None => string_of("a.out"),
    }
}

/// The binary a source compiles to when no output is given.
pub fn default_output_path(source_path: &str) -> (r: String)
    ensures
        r@ == default_output(source_path@),
{
    output_name_for_stem(file_stem_of(source_path))
}

fn parse_install(args: &[String]) -> (r: Result<String, String>)
    requires
        args@.len() >= 2,
    ensures
        match r {
            Ok(p) => parse_install_args(string_views(args@), 2, "/usr/local"@) == Ok::<
                Seq<char>,
                Seq<char>,
            >(p@),
            Err(e) => parse_install_args(string_views(args@), 2, "/usr/local"@) == Err::<
                Seq<char>,
                Seq<char>,
            >(e@),
        },
{
    let ghost views = string_views(args@);
    let mut prefix = string_of("/usr/local");
    let mut index: usize = 2;
    while index < args.len()
        invariant
            2 <= index,
            views == string_views(args@),
            parse_install_args(views, 2, "/usr/local"@) == parse_install_args(
                views,
                index as int,
                prefix@,
            ),
        decreases args.len() - index,
    {
        if str_eq(args[index].as_str(), "--prefix") {
            if index + 1 >= args.len() {
                return Err(usage());
            }
            prefix = args[index + 1].clone();
            index += 2;
        } else {
            return Err(unknown_argument_message(args[index].as_str()));
        }
    }
    Ok(prefix)
}

/// Reads the command line, program name first.
pub fn parse_cli_args(args: &[String]) -> (r: Result<CliCommand, String>)
    ensures
        match r {
            Ok(c) => cli_spec(string_views(args@)) == Ok::<CliCommandView, Seq<char>>(c@),
            Err(e) => cli_spec(string_views(args@)) == Err::<CliCommandView, Seq<char>>(e@),
        },
{
    let ghost views = string_views(args@);
    if args.len() < 2 {
        return Err(usage());
    }
    if str_eq(args[1].as_str(), "--help") || str_eq(args[1].as_str(), "-h") {
        return Err(usage());
    }
    if str_eq(args[1].as_str(), "--install") {
        return match parse_install(args) {
            Ok(prefix) => Ok(CliCommand::Install { prefix }),
            Err(e) => Err(e),
        };
    }
    let mut source_paths: Vec<String> = Vec::new();
    let mut output: Option<String> = None;
    let mut index: usize = 1;
    assert(string_views(source_paths@) =~= Seq::<Seq<char>>::empty());
    while index < args.len()
        invariant
            1 <= index,
            views == string_views(args@),
            views.len() >= 2,
            views[1] != "--help"@ && views[1] != "-h"@ && views[1] != "--install"@,
            parse_compile_args(views, 1, Seq::empty(), None) == parse_compile_args(
                views,
                index as int,
                string_views(source_paths@),
                match output {
                    Some(o) => Some(o@),
                    None => None,
                },
            ),
        decreases args.len() - index,
    {
        let arg = &args[index];
        if str_eq(arg.as_str(), "-o") {
            if index + 1 >= args.len() {
                return Err(usage());
            }
            output = Some(args[index + 1].clone());
            index += 2;
        } else if crate::text::starts_with_char(arg.as_str(), '-') {
            return Err(unknown_argument_message(arg.as_str()));
        } else {
            let ghost before = string_views(source_paths@);
            source_paths.push(arg.clone());
            assert(string_views(source_paths@) =~= before.push(arg@));
            index += 1;
        }
    }
    if source_paths.len() == 0 {
        return Err(usage());
    }
    let output_path = match output {
        Some(o) => o,
        None => default_output_path(source_paths[0].as_str()),
    };
    Ok(CliCommand::Compile { source_paths, output_path })
}

/// The colored tag a diagnostic of the given severity is printed with.
pub fn style_tag(severity: Severity) -> (s: &'static str)
    ensures
        s@ == tag_text(severity),
{
    match severity {
        Severity::Warning => "\x1b[43;97;1m[WARN]\x1b[0m",
        Severity::Error => "\x1b[41;97;1m[ERROR]\x1b[0m",
    }
}

pub open spec fn tag_text(severity: Severity) -> Seq<char> {
    match severity {
        Severity::Warning => "\x1b[43;97;1m[WARN]\x1b[0m"@,
        Severity::Error => "\x1b[41;97;1m[ERROR]\x1b[0m"@,
    }
}

/// The colored tag that success messages are printed with.
pub fn success_tag() -> (s: &'static str)
    ensures
        s@ == "\x1b[42;97;1m[SUCCESS]\x1b[0m"@,
{
    "\x1b[42;97;1m[SUCCESS]\x1b[0m"
}

/// How a diagnostic is printed for a source file.
pub open spec fn diagnostic_text(path: Seq<char>, d: DiagnosticView) -> Seq<char> {
    match d.span {
        Some(span) => tag_text(d.severity) + " "@ + path + ":"@ + decimal(span.line as nat) + ":"@
            + decimal(span.column as nat) + ": "@ + d.message,
        None => tag_text(d.severity) + " "@ + d.message,
    }
}

/// The summary line after the diagnostics, when there are any.
pub open spec fn summary_text(items: Seq<DiagnosticView>) -> Seq<Seq<char>> {
    let warnings = count_severity(items, Severity::Warning);
    let errors = count_severity(items, Severity::Error);
    if warnings > 0 || errors > 0 {
        seq![
            tag_text(if errors > 0 {
                Severity::Error
            } else {
                Severity::Warning
            }) + " Diagnostics: "@ + decimal(warnings) + " warning(s), "@ + decimal(errors)
                + " error(s)"@,
        ]
    } else {
        Seq::empty()
    }
}

/// The lines that report diagnostics for a source file.
pub open spec fn report_text(path: Seq<char>, items: Seq<DiagnosticView>) -> Seq<Seq<char>> {
    items.map_values(|d: DiagnosticView| diagnostic_text(path, d)) + summary_text(items)
}

fn diagnostic_line(path: &str, d: &Diagnostic) -> (s: String)
    ensures
        s@ == diagnostic_text(path@, d@),
{
    let mut line = string_of(style_tag(d.severity));
    push_str(&mut line, " ");
    match d.span {
        Some(span) => {
            push_str(&mut line, path);
            push_str(&mut line, ":");
            let l = usize_to_string(span.line);
            push_str(&mut line, l.as_str());
            push_str(&mut line, ":");
            let c = usize_to_string(span.column);
            push_str(&mut line, c.as_str());
            push_str(&mut line, ": ");
        },
        None => {},
    }
    push_str(&mut line, d.message.as_str());
    line
}

/// The lines that report the diagnostics of a source file, in order, with the
/// summary line last.
pub fn diagnostic_report(path: &str, diagnostics: &Diagnostics) -> (lines: Vec<String>)
    ensures
        string_views(lines@) == report_text(path@, diagnostics@),
{
    let items = diagnostics.items();
    let ghost views = items@.map_values(|d: Diagnostic| d@);
    let mut lines: Vec<String> = Vec::new();
    let mut i: usize = 0;
    while i < items.len()
        invariant
            i <= items@.len(),
            views == items@.map_values(|d: Diagnostic| d@),
            views == diagnostics@,
            string_views(lines@) == views.take(i as int).map_values(
                |d: DiagnosticView| diagnostic_text(path@, d),
            ),
        decreases items.len() - i,
    {
        let ghost before = string_views(lines@);
        lines.push(diagnostic_line(path, &items[i]));
        assert(views[i as int] == items@[i as int]@);
        assert(views.take(i + 1).map_values(|d: DiagnosticView| diagnostic_text(path@, d))
            =~= views.take(i as int).map_values(|d: DiagnosticView| diagnostic_text(path@, d)).push(
            diagnostic_text(path@, views[i as int]),
        ));
        assert(string_views(lines@) =~= before.push(diagnostic_text(path@, views[i as int])));
        i += 1;
    }
    assert(views.take(views.len() as int) =~= views);
    let ghost listed = string_views(lines@);
    let warnings = diagnostics.warnings_count();
    let errors = diagnostics.errors_count();
    if warnings > 0 || errors > 0 {
        let summary_severity = if errors > 0 {
            Severity::Error
        } else {
            Severity::Warning
        };
        let mut summary = string_of(style_tag(summary_severity));
        push_str(&mut summary, " Diagnostics: ");
        let w = usize_to_string(warnings);
        push_str(&mut summary, w.as_str());
        push_str(&mut summary, " warning(s), ");
        let e = usize_to_string(errors);
        push_str(&mut summary, e.as_str());
        push_str(&mut summary, " error(s)");
        lines.push(summary);
        assert(string_views(lines@) =~= listed + summary_text(diagnostics@));
    } else {
        assert(string_views(lines@) =~= listed + summary_text(diagnostics@));
    }
    lines
}

} // verus!
