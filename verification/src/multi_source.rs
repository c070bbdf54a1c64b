use vstd::prelude::*;

use crate::ast::{
    AssignTarget, BodyDecl, CallTarget, CapabilityDecl, Expr, FuncDecl, FuncParam, ImportDecl,
    Item, Program, RightDecl, Stmt, VarDecl,
};
use crate::diagnostics::{error_at, error_count, has_error, DiagnosticView, Diagnostics};
use crate::names::NameMap;
use crate::sema::grows;
use crate::sorting::{sorted_unique, strictly_sorted};
use crate::span::Span;
use crate::text::{
    decimal, file_stem_of, is_alphanumeric_char, is_ascii_alnum, lowercase_of, path_file_stem,
    push_char, push_chars, push_str, spec_is_ascii_alnum, str_eq, string_from_chars, string_of,
    to_chars, unicode_alphanumeric, unicode_lowercase, unicode_uppercase, uppercase_of,
    usize_to_string,
};

verus! {

/// A parsed input file and the path it was read from.
#[derive(Debug)]
pub struct ParsedSource {
    pub path: String,
    pub program: Program,
}

// ---------------------------------------------------------------------------
// Names
// ---------------------------------------------------------------------------

/// A body name without its `Body` suffix, when it is longer than the suffix.
pub open spec fn trimmed_body_name(name: Seq<char>) -> Seq<char> {
    if name.len() > 4 && name.subrange(name.len() - 4, name.len() as int) == "Body"@ {
        name.subrange(0, name.len() - 4)
    } else {
        name
    }
}

/// The module name of a source: its body name without the `Body` suffix.
pub open spec fn source_module_name(body_name: Seq<char>) -> Seq<char> {
    let trimmed = trimmed_body_name(body_name);
    if trimmed.len() == 0 {
        body_name
    } else {
        trimmed
    }
}

pub open spec fn sanitized_char(c: char) -> char {
    if spec_is_ascii_alnum(c) || c == '_' {
        c
    } else {
        '_'
    }
}

/// A name made fit for a symbol: characters other than ASCII letters, digits and
/// `_` become `_`; an empty name becomes `Module`.
pub open spec fn sanitized(name: Seq<char>) -> Seq<char> {
    if name.len() == 0 {
        "Module"@
    } else {
        name.map_values(|c: char| sanitized_char(c))
    }
}

/// A module name as aliases are compared: its alphanumeric characters, lowercased.
pub open spec fn normalized(name: Seq<char>) -> Seq<char>
    decreases name.len(),
{
    if name.len() == 0 {
        Seq::empty()
    } else {
        let rest = normalized(name.drop_last());
        if unicode_alphanumeric(name.last()) {
            rest + unicode_lowercase(name.last())
        } else {
            rest
        }
    }
}

pub open spec fn is_word_separator(c: char) -> bool {
    c == '_' || c == '-' || c == ' '
}

/// The PascalCase text built so far from `s`, and whether the next letter is
/// to be uppercased.
pub open spec fn pascal_state(s: Seq<char>) -> (Seq<char>, bool)
    decreases s.len(),
{
    if s.len() == 0 {
        (Seq::empty(), true)
    } else {
        let (out, upper_next) = pascal_state(s.drop_last());
        let c = s.last();
        if is_word_separator(c) {
            (out, true)
        } else if upper_next {
            (out + unicode_uppercase(c), false)
        } else {
            (out.push(c), false)
        }
    }
}

/// A file stem in PascalCase: separators `_`, `-` and space dropped, and the
/// letter after each of them, and the first, uppercased.
pub open spec fn pascal_case(s: Seq<char>) -> Seq<char> {
    pascal_state(s).0
}

/// Drops a trailing `Body` from a body name longer than that suffix.
pub fn trim_body_suffix(body_name: &str) -> (r: String)
    ensures
        r@ == trimmed_body_name(body_name@),
{
    let chars = to_chars(body_name);
    let n = chars.len();
    proof {
        reveal_strlit("Body");
    }
    if n > 4 && chars[n - 4] == 'B' && chars[n - 3] == 'o' && chars[n - 2] == 'd' && chars[n
        - 1] == 'y' {
        assert(chars@.subrange(n - 4, n as int) =~= "Body"@);
        string_from_chars(chars.as_slice(), 0, n - 4)
    } else {
        proof {
            if n > 4 && chars@.subrange(n - 4, n as int) == "Body"@ {
                assert(chars@.subrange(n - 4, n as int)[0] == chars@[n - 4]);
                assert(chars@.subrange(n - 4, n as int)[1] == chars@[n - 3]);
                assert(chars@.subrange(n - 4, n as int)[2] == chars@[n - 2]);
                assert(chars@.subrange(n - 4, n as int)[3] == chars@[n - 1]);
            }
        }
        string_of(body_name)
    }
}

/// Turns a name into a symbol-safe one.
pub fn sanitize_symbol(name: &str) -> (r: String)
    ensures
        r@ == sanitized(name@),
{
    let chars = to_chars(name);
    let mut out = String::new();
    let mut i: usize = 0;
    while i < chars.len()
        invariant
            i <= chars@.len(),
            chars@ == name@,
            out@ == chars@.take(i as int).map_values(|c: char| sanitized_char(c)),
        decreases chars.len() - i,
    {
        let c = chars[i];
        if is_ascii_alnum(c) || c == '_' {
            push_char(&mut out, c);
        } else {
            push_char(&mut out, '_');
        }
        assert(chars@.take(i + 1).map_values(|c: char| sanitized_char(c)) =~= chars@.take(
            i as int,
        ).map_values(|c: char| sanitized_char(c)).push(sanitized_char(c)));
        i += 1;
    }
    assert(chars@.take(chars@.len() as int) =~= chars@);
    if chars.len() == 0 {
        string_of("Module")
    } else {
        out
    }
}

/// The form of a module name that aliases are compared in.
pub fn normalize_module_name(name: &str) -> (r: String)
    ensures
        r@ == normalized(name@),
{
    let chars = to_chars(name);
    let mut out = String::new();
    let mut i: usize = 0;
    while i < chars.len()
        invariant
            i <= chars@.len(),
            chars@ == name@,
            out@ == normalized(chars@.take(i as int)),
        decreases chars.len() - i,
    {
        let c = chars[i];
        assert(chars@.take(i + 1).drop_last() =~= chars@.take(i as int));
        if is_alphanumeric_char(c) {
            let lower = lowercase_of(c);
            push_chars(&mut out, &lower);
        }
        i += 1;
    }
    assert(chars@.take(chars@.len() as int) =~= chars@);
    out
}

/// A file stem in PascalCase.
pub fn to_pascal_case(stem: &str) -> (r: String)
    ensures
        r@ == pascal_case(stem@),
{
    let chars = to_chars(stem);
    let mut out = String::new();
    let mut uppercase_next = true;
    let mut i: usize = 0;
    while i < chars.len()
        invariant
            i <= chars@.len(),
            chars@ == stem@,
            (out@, uppercase_next) == pascal_state(chars@.take(i as int)),
        decreases chars.len() - i,
    {
        let c = chars[i];
        assert(chars@.take(i + 1).drop_last() =~= chars@.take(i as int));
        if c == '_' || c == '-' || c == ' ' {
            uppercase_next = true;
        } else if uppercase_next {
            let upper = uppercase_of(c);
            push_chars(&mut out, &upper);
            uppercase_next = false;
        } else {
            push_char(&mut out, c);
            uppercase_next = false;
        }
        i += 1;
    }
    assert(chars@.take(chars@.len() as int) =~= chars@);
    out
}

// ---------------------------------------------------------------------------
// Sources and their function tables
// ---------------------------------------------------------------------------

/// The module name of a parsed source.
pub open spec fn module_of(source: ParsedSource) -> Seq<char> {
    source_module_name(source.program.body.name@)
}

/// Whether some function item has the given name.
pub open spec fn defines_function(items: Seq<Item>, name: Seq<char>) -> bool {
    exists|j: int| 0 <= j < items.len() && #[trigger] item_function_name(items[j]) == Some(name)
}

/// The name of a function item.
pub open spec fn item_function_name(item: Item) -> Option<Seq<char>> {
    match item {
        Item::Func(f) => Some(f.name@),
        _ => None,
    }
}

/// The name a function of source `index` has in the merged program: the entry
/// source keeps its names, the others prefix them with their module.
pub open spec fn global_function_name(sources: Seq<ParsedSource>, index: int, name: Seq<char>) -> Seq<
    char,
> {
    if index == 0 {
        name
    } else {
        sanitized(module_of(sources[index])) + "__"@ + name
    }
}

/// The last source with the given module name, or -1 when there is none.
pub open spec fn last_source_of_module(sources: Seq<ParsedSource>, module: Seq<char>) -> int
    decreases sources.len(),
{
    if sources.len() == 0 {
        -1
    } else if module_of(sources.last()) == module {
        sources.len() - 1
    } else {
        last_source_of_module(sources.drop_last(), module)
    }
}

/// The name a function declared in source `index` gets: its module's table is
/// the one of the last source with that module name.
pub open spec fn renamed_function(sources: Seq<ParsedSource>, index: int, name: Seq<char>) -> Seq<
    char,
> {
    let owner = last_source_of_module(sources, module_of(sources[index]));
    if defines_function(sources[owner].program.body.items@, name) {
        global_function_name(sources, owner, name)
    } else {
        name
    }
}

/// A function table that holds the functions of the first `upto` items of
/// source `index`.
pub open spec fn table_holds(
    table: NameMap<String>,
    sources: Seq<ParsedSource>,
    index: int,
    upto: int,
) -> bool {
    forall|k: Seq<char>|
        #![trigger table.get_spec(k)]
        {
            &&& (table.get_spec(k) is Some <==> defines_function(
                sources[index].program.body.items@.take(upto),
                k,
            ))
            &&& (table.get_spec(k) matches Some(v) ==> v@ == global_function_name(
                sources,
                index,
                k,
            ))
        }
}

/// The tables of modules: each module name of the first `upto` sources maps to
/// the table of the last of them with that name.
pub open spec fn tables_hold(
    tables: NameMap<NameMap<String>>,
    sources: Seq<ParsedSource>,
    upto: int,
) -> bool {
    forall|m: Seq<char>|
        #![trigger tables.get_spec(m)]
        {
            let owner = last_source_of_module(sources.take(upto), m);
            &&& (tables.get_spec(m) is Some <==> owner >= 0)
            &&& (tables.get_spec(m) matches Some(table) ==> table_holds(
                table,
                sources,
                owner,
                sources[owner].program.body.items@.len() as int,
            ))
        }
}

/// The names a source can be imported by: its module name, its body name, and,
/// when its path has a file stem, the stem and the stem in PascalCase.
pub open spec fn alias_candidates(source: ParsedSource) -> Set<Seq<char>> {
    let base = Set::empty().insert(module_of(source)).insert(source.program.body.name@);
    match path_file_stem(source.path@) {
        Some(stem) => base.insert(stem).insert(pascal_case(stem)),
        None => base,
    }
}

struct SourceMeta {
    module_name: String,
    sanitized_module_name: String,
    aliases: Vec<String>,
}

spec fn metas_fit(metas: Seq<SourceMeta>, sources: Seq<ParsedSource>) -> bool {
    &&& metas.len() == sources.len()
    &&& forall|i: int|
        0 <= i < metas.len() ==> (#[trigger] metas[i]).module_name@ == module_of(sources[i])
            && metas[i].sanitized_module_name@ == sanitized(module_of(sources[i]))
            && crate::sorting::text_set(metas[i].aliases@) == alias_candidates(sources[i])
}

/// Whether one of the names a source can be imported by normalizes to `key`.
pub open spec fn answers_to(source: ParsedSource, key: Seq<char>) -> bool {
    exists|a: Seq<char>| #[trigger] alias_candidates(source).contains(a) && normalized(a) == key
}

/// The first of the first `upto` sources that answers to a non-empty `key`.
pub open spec fn alias_owner(sources: Seq<ParsedSource>, upto: int, key: Seq<char>) -> Option<int>
    decreases upto,
{
    if upto <= 0 {
        None
    } else {
        match alias_owner(sources, upto - 1, key) {
            Some(i) => Some(i),
            None => if key.len() > 0 && answers_to(sources[upto - 1], key) {
                Some(upto - 1)
            } else {
                None
            },
        }
    }
}

/// No two of the first `upto` sources with different module names answer to
/// the same alias.
pub open spec fn aliases_consistent(sources: Seq<ParsedSource>, upto: int) -> bool {
    forall|j: int, k: Seq<char>|
        0 <= j < upto && k.len() > 0 && #[trigger] answers_to(sources[j], k) ==> (alias_owner(
            sources,
            upto,
            k,
        ) matches Some(o) && module_of(sources[o]) == module_of(sources[j]))
}

/// The alias map after the first `upto` sources: each key names the module of
/// the first source that answers to it.
pub open spec fn alias_map_fits(map: NameMap<String>, sources: Seq<ParsedSource>, upto: int) -> bool {
    forall|k: Seq<char>|
        #![trigger map.get_spec(k)]
        {
            &&& (map.get_spec(k) is Some <==> alias_owner(sources, upto, k) is Some)
            &&& (map.get_spec(k) matches Some(v) ==> v@ == module_of(
                sources[alias_owner(sources, upto, k)->0],
            ))
        }
}

fn build_source_meta(source: &ParsedSource) -> (m: SourceMeta)
    ensures
        m.module_name@ == module_of(*source),
        m.sanitized_module_name@ == sanitized(module_of(*source)),
        strictly_sorted(m.aliases@),
        crate::sorting::text_set(m.aliases@) == alias_candidates(*source),
{
    let body_name = source.program.body.name.clone();
    let trimmed = trim_body_suffix(body_name.as_str());
    let module_name = if crate::text::is_empty_str(trimmed.as_str()) {
        body_name.clone()
    } else {
        trimmed
    };
    let mut candidates: Vec<String> = Vec::new();
    candidates.push(module_name.clone());
    candidates.push(body_name);
    match file_stem_of(source.path.as_str()) {
        Some(stem) => {
            let pascal = to_pascal_case(stem.as_str());
            candidates.push(stem);
            candidates.push(pascal);
        },
        None => {},
    }
    proof {
        assert(crate::sorting::text_set(candidates@) =~= alias_candidates(*source)) by {
            assert forall|t: Seq<char>| alias_candidates(*source).contains(t) implies crate::sorting::text_set(
                candidates@,
            ).contains(t) by {
                if t == module_of(*source) {
                    assert(candidates@[0]@ == t);
                } else if t == source.program.body.name@ {
                    assert(candidates@[1]@ == t);
                } else if candidates@.len() > 2 && t == candidates@[2]@ {
                } else {
                    assert(candidates@[3]@ == t);
                }
            }
            assert forall|t: Seq<char>| crate::sorting::text_set(candidates@).contains(t) implies alias_candidates(
                *source,
            ).contains(t) by {
                let i = choose|i: int| 0 <= i < candidates@.len() && #[trigger] candidates@[i]@ == t;
                assert(0 <= i < candidates@.len());
            }
        }
    }
    let aliases = sorted_unique(&candidates);
    let sanitized_module_name = sanitize_symbol(module_name.as_str());
    SourceMeta { module_name, sanitized_module_name, aliases }
}

proof fn lemma_last_source_step(sources: Seq<ParsedSource>, i: int, m: Seq<char>)
    requires
        0 <= i < sources.len(),
    ensures
        last_source_of_module(sources.take(i + 1), m) == if module_of(sources[i]) == m {
            i
        } else {
            last_source_of_module(sources.take(i), m)
        },
{
    assert(sources.take(i + 1).drop_last() =~= sources.take(i));
    assert(sources.take(i + 1).last() == sources[i]);
}

proof fn lemma_last_source_bounds(sources: Seq<ParsedSource>, m: Seq<char>)
    ensures
        -1 <= last_source_of_module(sources, m) < sources.len(),
        last_source_of_module(sources, m) >= 0 ==> module_of(
            sources[last_source_of_module(sources, m)],
        ) == m,
    decreases sources.len(),
{
    if sources.len() > 0 {
        lemma_last_source_bounds(sources.drop_last(), m);
        if module_of(sources.last()) != m && last_source_of_module(sources.drop_last(), m) >= 0 {
            assert(sources.drop_last()[last_source_of_module(sources.drop_last(), m)]
                == sources[last_source_of_module(sources.drop_last(), m)]);
        }
    }
}

proof fn lemma_defines_step(items: Seq<Item>, j: int, k: Seq<char>)
    requires
        0 <= j < items.len(),
    ensures
        defines_function(items.take(j + 1), k) == (defines_function(items.take(j), k)
            || item_function_name(items[j]) == Some(k)),
{
    let next = items.take(j + 1);
    let prev = items.take(j);
    if defines_function(next, k) {
        let w = choose|w: int| 0 <= w < next.len() && #[trigger] item_function_name(next[w]) == Some(k);
        if w < j {
            assert(item_function_name(prev[w]) == Some(k));
        }
    }
    if defines_function(prev, k) {
        let w = choose|w: int| 0 <= w < prev.len() && #[trigger] item_function_name(prev[w]) == Some(k);
        assert(item_function_name(next[w]) == Some(k));
    }
    if item_function_name(items[j]) == Some(k) {
        assert(item_function_name(next[j]) == Some(k));
    }
}

/// The table of functions of one source: local name to merged name.
fn build_function_table(
    sources: &[ParsedSource],
    metas: &Vec<SourceMeta>,
    index: usize,
) -> (table: NameMap<String>)
    requires
        metas_fit(metas@, sources@),
        index < sources@.len(),
    ensures
        table_holds(table, sources@, index as int, sources@[index as int].program.body.items@.len() as int),
{
    let items = &sources[index].program.body.items;
    let mut table: NameMap<String> = NameMap::new();
    let mut j: usize = 0;
    assert(metas@[index as int].sanitized_module_name@ == sanitized(module_of(sources@[index as int])));
    while j < items.len()
        invariant
            j <= items@.len(),
            items@ == sources@[index as int].program.body.items@,
            index < sources@.len(),
            metas_fit(metas@, sources@),
            table_holds(table, sources@, index as int, j as int),
        decreases items.len() - j,
    {
        match &items[j] {
            Item::Func(func_decl) => {
                let global_name = if index == 0 {
                    func_decl.name.clone()
                } else {
                    let mut g = metas[index].sanitized_module_name.clone();
                    push_str(&mut g, "__");
                    push_str(&mut g, func_decl.name.as_str());
                    proof {
                        reveal_strlit("__");
                    }
                    g
                };
                if table.contains_key(func_decl.name.as_str()) {
                    table.set(func_decl.name.as_str(), global_name);
                } else {
                    table.insert(func_decl.name.clone(), global_name);
                }
            },
            _ => {},
        }
        proof {
            assert forall|k: Seq<char>| #![trigger table.get_spec(k)]
                (table.get_spec(k) is Some <==> defines_function(items@.take(j + 1), k))
                && (table.get_spec(k) matches Some(v) ==> v@ == global_function_name(sources@, index as int, k)) by {
                lemma_defines_step(items@, j as int, k);
            }
        }
        j += 1;
    }
    assert(items@.take(items@.len() as int) =~= items@);
    table
}

/// The module name of the first source whose module name normalizes to `key`.
pub open spec fn first_source_module(sources: Seq<ParsedSource>, key: Seq<char>) -> Option<Seq<char>>
    decreases sources.len(),
{
    if sources.len() == 0 {
        None
    } else {
        match first_source_module(sources.drop_last(), key) {
            Some(m) => Some(m),
            None => if normalized(module_of(sources.last())) == key {
                Some(module_of(sources.last()))
            } else {
                None
            },
        }
    }
}

proof fn lemma_first_source_found(sources: Seq<ParsedSource>, j: int, key: Seq<char>)
    requires
        0 <= j < sources.len(),
        normalized(module_of(sources[j])) == key,
    ensures
        first_source_module(sources, key) is Some,
    decreases sources.len(),
{
    if j < sources.len() - 1 {
        assert(sources.drop_last()[j] == sources[j]);
        lemma_first_source_found(sources.drop_last(), j, key);
    }
}

proof fn lemma_first_module_push(entries: Seq<(String, NameMap<String>)>, e: (String, NameMap<String>), key: Seq<char>)
    ensures
        first_module_matching(entries.push(e), key) == match first_module_matching(entries, key) {
            Some(m) => Some(m),
            None => if normalized(e.0@) == key {
                Some(e.0@)
            } else {
                None
            },
        },
    decreases entries.len(),
{
    let p = entries.push(e);
    if entries.len() == 0 {
        assert(p.drop_first() =~= Seq::<(String, NameMap<String>)>::empty());
        assert(p[0] == e);
    } else {
        assert(p.drop_first() =~= entries.drop_first().push(e));
        assert(p[0] == entries[0]);
        lemma_first_module_push(entries.drop_first(), e, key);
    }
}

proof fn lemma_first_module_keys(
    a: Seq<(String, NameMap<String>)>,
    b: Seq<(String, NameMap<String>)>,
    key: Seq<char>,
)
    requires
        a.len() == b.len(),
        forall|i: int| 0 <= i < a.len() ==> (#[trigger] b[i]).0@ == a[i].0@,
    ensures
        first_module_matching(a, key) == first_module_matching(b, key),
    decreases a.len(),
{
    if a.len() > 0 {
        assert forall|i: int| 0 <= i < a.drop_first().len() implies (#[trigger] b.drop_first()[i]).0@
            == a.drop_first()[i].0@ by {
            assert(b.drop_first()[i] == b[i + 1]);
            assert(a.drop_first()[i] == a[i + 1]);
        }
        lemma_first_module_keys(a.drop_first(), b.drop_first(), key);
    }
}

/// The function tables of all modules.
fn build_function_tables(sources: &[ParsedSource], metas: &Vec<SourceMeta>) -> (tables: NameMap<
    NameMap<String>,
>)
    requires
        metas_fit(metas@, sources@),
    ensures
        tables_hold(tables, sources@, sources@.len() as int),
        forall|key: Seq<char>|
            #[trigger] first_module_matching(tables.entries(), key) == first_source_module(sources@, key),
{
    let mut tables: NameMap<NameMap<String>> = NameMap::new();
    let mut i: usize = 0;
    while i < sources.len()
        invariant
            i <= sources@.len(),
            metas_fit(metas@, sources@),
            tables_hold(tables, sources@, i as int),
            forall|key: Seq<char>|
                #[trigger] first_module_matching(tables.entries(), key) == first_source_module(
                    sources@.take(i as int),
                    key,
                ),
        decreases sources.len() - i,
    {
        let table = build_function_table(sources, metas, i);
        let module_name = &metas[i].module_name;
        let ghost before = tables;
        proof {
            assert(sources@.take(i + 1).drop_last() =~= sources@.take(i as int));
            assert(sources@.take(i + 1).last() == sources@[i as int]);
        }
        if tables.contains_key(module_name.as_str()) {
            tables.set(module_name.as_str(), table);
            proof {
                let m = module_name@;
                let owner = last_source_of_module(sources@.take(i as int), m);
                lemma_last_source_bounds(sources@.take(i as int), m);
                assert(sources@.take(i as int)[owner] == sources@[owner]);
                assert forall|key: Seq<char>| #[trigger] first_module_matching(tables.entries(), key)
                    == first_source_module(sources@.take(i + 1), key) by {
                    lemma_first_module_keys(before.entries(), tables.entries(), key);
                    if normalized(m) == key {
                        lemma_first_source_found(sources@.take(i as int), owner, key);
                    }
                }
            }
        } else {
            tables.insert(module_name.clone(), table);
            proof {
                assert forall|key: Seq<char>| #[trigger] first_module_matching(tables.entries(), key)
                    == first_source_module(sources@.take(i + 1), key) by {
                    lemma_first_module_push(before.entries(), tables.entries().last(), key);
                    assert(tables.entries() =~= before.entries().push(tables.entries().last()));
                }
            }
        }
        proof {
            assert forall|m: Seq<char>| #![trigger tables.get_spec(m)]
                ({
                    let owner = last_source_of_module(sources@.take(i + 1), m);
                    &&& (tables.get_spec(m) is Some <==> owner >= 0)
                    &&& (tables.get_spec(m) matches Some(t) ==> table_holds(
                        t,
                        sources@,
                        owner,
                        sources@[owner].program.body.items@.len() as int,
                    ))
                }) by {
                lemma_last_source_step(sources@, i as int, m);
                assert(before.get_spec(m) == before.get_spec(m));
            }
        }
        i += 1;
    }
    assert(sources@.take(sources@.len() as int) =~= sources@);
    tables
}

// ---------------------------------------------------------------------------
// Rewriting a source into the merged program
// ---------------------------------------------------------------------------

/// The merged name of a module's function, when the module's table has it.
pub open spec fn table_lookup(
    tables: NameMap<NameMap<String>>,
    module: Seq<char>,
    name: Seq<char>,
) -> Option<Seq<char>> {
    match tables.get_spec(module) {
        Some(table) => match table.get_spec(name) {
            Some(g) => Some(g@),
            None => None,
        },
        None => None,
    }
}

/// The first module, in the order the tables were built, whose normalized name
/// is `key`.
pub open spec fn first_module_matching(entries: Seq<(String, NameMap<String>)>, key: Seq<char>) -> Option<
    Seq<char>,
>
    decreases entries.len(),
{
    if entries.len() == 0 {
        None
    } else if normalized(entries[0].0@) == key {
        Some(entries[0].0@)
    } else {
        first_module_matching(entries.drop_first(), key)
    }
}

/// Whether some string of the list has the given text.
pub open spec fn has_text(items: Seq<String>, t: Seq<char>) -> bool {
    exists|i: int| 0 <= i < items.len() && #[trigger] items[i]@ == t
}

/// The local module a qualified call goes to: a source module that the calling
/// source imports.
pub open spec fn imported_local_module(
    tables: NameMap<NameMap<String>>,
    local_imports: Seq<String>,
    module: Seq<char>,
) -> Option<Seq<char>> {
    match first_module_matching(tables.entries(), normalized(module)) {
        Some(local) => if has_text(local_imports, local) {
            Some(local)
        } else {
            None
        },
        None => None,
    }
}

/// The message for a call of a function that a local module does not define.
pub open spec fn missing_export_message(
    path: Seq<char>,
    span: Span,
    module: Seq<char>,
    name: Seq<char>,
) -> Seq<char> {
    path + ":"@ + decimal(span.line as nat) + ":"@ + decimal(span.column as nat) + ": Module '"@
        + module + "' does not export function '"@ + name + "'"@
}

/// What one source is rewritten with.
struct TransformCtx<'a> {
    path: &'a str,
    module_name: &'a str,
    local_imports: &'a Vec<String>,
    tables: &'a NameMap<NameMap<String>>,
}

fn contains_text(items: &Vec<String>, t: &str) -> (b: bool)
    ensures
        b == has_text(items@, t@),
{
    let mut i: usize = 0;
    while i < items.len()
        invariant
            i <= items@.len(),
            forall|j: int| 0 <= j < i ==> items@[j]@ != t@,
        decreases items.len() - i,
    {
        if str_eq(items[i].as_str(), t) {
            return true;
        }
        i += 1;
    }
    false
}

fn lookup_local_function(module_name: &str, local_name: &str, tables: &NameMap<NameMap<String>>) -> (r:
    Option<String>)
    ensures
        match r {
            Some(g) => table_lookup(*tables, module_name@, local_name@) == Some(g@),
            None => table_lookup(*tables, module_name@, local_name@) is None,
        },
{
    match tables.get(module_name) {
        Some(table) => match table.get(local_name) {
            Some(g) => Some(g.clone()),
            None => None,
        },
        None => None,
    }
}

fn resolve_module_in_tables(tables: &NameMap<NameMap<String>>, module_name: &str) -> (r: Option<
    String,
>)
    ensures
        match r {
            Some(m) => first_module_matching(tables.entries(), normalized(module_name@)) == Some(
                m@,
            ),
            None => first_module_matching(tables.entries(), normalized(module_name@)) is None,
        },
{
    let key = normalize_module_name(module_name);
    let ghost entries = tables.entries();
    let mut i: usize = 0;
    assert(entries.skip(0) =~= entries);
    while i < tables.len()
        invariant
            i <= entries.len(),
            entries == tables.entries(),
            key@ == normalized(module_name@),
            first_module_matching(entries, key@) == first_module_matching(entries.skip(i as int), key@),
        decreases entries.len() - i,
    {
        let (name, _) = tables.entry(i);
        let normalized_name = normalize_module_name(name.as_str());
        assert(entries.skip(i as int)[0] == entries[i as int]);
        assert(entries.skip(i as int).len() > 0);
        if str_eq(normalized_name.as_str(), key.as_str()) {
            assert(normalized(entries.skip(i as int)[0].0@) == key@);
            return Some(name.clone());
        }
        assert(entries.skip(i as int).drop_first() =~= entries.skip(i + 1));
        i += 1;
    }
    None
}

fn transform_callee(
    callee: &CallTarget,
    span: Span,
    ctx: &TransformCtx,
    diagnostics: &mut Diagnostics,
) -> (r: CallTarget)
    ensures
        grows(old(diagnostics)@, final(diagnostics)@),
        reports_unless(old(diagnostics)@, final(diagnostics)@, callee_ok(*callee, ctx_ok(*ctx.tables, ctx.local_imports@))),
        match *callee {
            CallTarget::Name(n) => final(diagnostics)@ == old(diagnostics)@ && (r matches CallTarget::Name(
                x,
            ) && x@ == if n@ == "Int"@ {
                n@
            } else {
                match table_lookup(*ctx.tables, ctx.module_name@, n@) {
                    Some(g) => g,
                    None => n@,
                }
            }),
            CallTarget::Qualified { module, name } => match imported_local_module(
                *ctx.tables,
                ctx.local_imports@,
                module@,
            ) {
                None => final(diagnostics)@ == old(diagnostics)@ && (r matches CallTarget::Qualified {
                    module: m2,
                    name: n2,
                } && m2@ == module@ && n2@ == name@),
                Some(local) => match table_lookup(*ctx.tables, local, name@) {
                    Some(g) => final(diagnostics)@ == old(diagnostics)@ && (r matches CallTarget::Name(
                        x,
                    ) && x@ == g),
                    None => final(diagnostics)@ == old(diagnostics)@.push(
                        error_at(None, missing_export_message(ctx.path@, span, module@, name@)),
                    ) && (r matches CallTarget::Name(x) && x@ == sanitized(local) + "__"@ + name@),
                },
            },
        },
{
    match callee {
        CallTarget::Name(name) => {
            if str_eq(name.as_str(), "Int") {
                return CallTarget::Name(name.clone());
            }
            match lookup_local_function(ctx.module_name, name.as_str(), ctx.tables) {
                Some(global_name) => CallTarget::Name(global_name),
                None => CallTarget::Name(name.clone()),
            }
        },
        CallTarget::Qualified { module, name } => {
            let local_module = match resolve_module_in_tables(ctx.tables, module.as_str()) {
                Some(m) => m,
                None => {
                    return CallTarget::Qualified { module: module.clone(), name: name.clone() };
                },
            };
            if !contains_text(ctx.local_imports, local_module.as_str()) {
                return CallTarget::Qualified { module: module.clone(), name: name.clone() };
            }
            match lookup_local_function(local_module.as_str(), name.as_str(), ctx.tables) {
                Some(global_name) => CallTarget::Name(global_name),
                None => {
                    let mut message = string_of(ctx.path);
                    push_str(&mut message, ":");
                    let line = usize_to_string(span.line);
                    push_str(&mut message, line.as_str());
                    push_str(&mut message, ":");
                    let column = usize_to_string(span.column);
                    push_str(&mut message, column.as_str());
                    push_str(&mut message, ": Module '");
                    push_str(&mut message, module.as_str());
                    push_str(&mut message, "' does not export function '");
                    push_str(&mut message, name.as_str());
                    push_str(&mut message, "'");
                    diagnostics.error(None, message);
                    let mut target = sanitize_symbol(local_module.as_str());
                    push_str(&mut target, "__");
                    push_str(&mut target, name.as_str());
                    CallTarget::Name(target)
                },
            }
        },
    }
}

/// A call target after rewriting: a plain name other than `Int` goes to the name
/// that `rename` gives it; a qualified call goes to the plain name that
/// `qualified` gives it, or stays as it is when that gives none.
pub open spec fn callee_rewritten(c: CallTarget, r: CallTarget, rename: spec_fn(Seq<char>) -> Seq<char>,
    qualified: spec_fn(Seq<char>, Seq<char>) -> Option<Seq<char>>) -> bool {
    match c {
        CallTarget::Name(n) => r matches CallTarget::Name(x) && x@ == if n@ == "Int"@ {
            n@
        } else {
            rename(n@)
        },
        CallTarget::Qualified { module, name } => match qualified(module@, name@) {
            Some(g) => r matches CallTarget::Name(x) && x@ == g,
            None => r matches CallTarget::Qualified { module: m2, name: n2 } && m2@ == module@ && n2@
                == name@,
        },
    }
}

/// `r` is `e` with its calls rewritten: the same shape, operators, literals and
/// spans, with every call target rewritten.
pub open spec fn expr_rewritten(e: Expr, r: Expr, rename: spec_fn(Seq<char>) -> Seq<char>,
    qualified: spec_fn(Seq<char>, Seq<char>) -> Option<Seq<char>>) -> bool
    decreases e,
{
    match e {
        Expr::IntLiteral(v, span) => r == Expr::IntLiteral(v, span),
        Expr::FloatLiteral(t, span) => r matches Expr::FloatLiteral(u, s2) && u@ == t@ && s2 == span,
        Expr::StringLiteral(t, span) => r matches Expr::StringLiteral(u, s2) && u@ == t@ && s2 == span,
        Expr::BoolLiteral(v, span) => r == Expr::BoolLiteral(v, span),
        Expr::Identifier(t, span) => r matches Expr::Identifier(u, s2) && u@ == t@ && s2 == span,
        Expr::ArrayLiteral(items, span) => r matches Expr::ArrayLiteral(out, s2) && s2 == span
            && out@.len() == items@.len() && forall|i: int|
            0 <= i < items@.len() ==> expr_rewritten(#[trigger] items@[i], out@[i], rename, qualified),
        Expr::Index { array, index, span } => r matches Expr::Index {
            array: a2,
            index: i2,
            span: s2,
        } && s2 == span && expr_rewritten(*array, *a2, rename, qualified) && expr_rewritten(
            *index,
            *i2,
            rename,
        qualified,
        ),
        Expr::NewObject { kind, args, span } => r matches Expr::NewObject {
            kind: k2,
            args: out,
            span: s2,
        } && k2@ == kind@ && s2 == span && out@.len() == args@.len() && forall|i: int|
            0 <= i < args@.len() ==> expr_rewritten(#[trigger] args@[i], out@[i], rename, qualified),
        Expr::Call { callee, args, span } => r matches Expr::Call {
            callee: c2,
            args: out,
            span: s2,
        } && s2 == span && callee_rewritten(callee, c2, rename, qualified) && out@.len() == args@.len()
            && forall|i: int|
            0 <= i < args@.len() ==> expr_rewritten(#[trigger] args@[i], out@[i], rename, qualified),
        Expr::Unary { op, expr, span } => r matches Expr::Unary { op: o2, expr: e2, span: s2 }
            && o2 == op && s2 == span && expr_rewritten(*expr, *e2, rename, qualified),
        Expr::Binary { left, op, right, span } => r matches Expr::Binary {
            left: l2,
            op: o2,
            right: r2,
            span: s2,
        } && o2 == op && s2 == span && expr_rewritten(*left, *l2, rename, qualified) && expr_rewritten(
            *right,
            *r2,
            rename,
        qualified,
        ),
        Expr::Ternary { condition, then_expr, else_expr, span } => r matches Expr::Ternary {
            condition: c2,
            then_expr: t2,
            else_expr: e2,
            span: s2,
        } && s2 == span && expr_rewritten(*condition, *c2, rename, qualified) && expr_rewritten(
            *then_expr,
            *t2,
            rename,
        qualified,
        ) && expr_rewritten(*else_expr, *e2, rename, qualified),
    }
}

/// Two optional texts are equal.
pub open spec fn same_text(a: Option<String>, b: Option<String>) -> bool {
    match (a, b) {
        (Some(x), Some(y)) => x@ == y@,
        (None, None) => true,
        _ => false,
    }
}

/// A variable declaration with its initializer rewritten.
pub open spec fn var_rewritten(d: VarDecl, r: VarDecl, rename: spec_fn(Seq<char>) -> Seq<char>,
    qualified: spec_fn(Seq<char>, Seq<char>) -> Option<Seq<char>>) -> bool {
    &&& r.name@ == d.name@
    &&& r.explicit_type == d.explicit_type
    &&& expr_rewritten(d.initializer, r.initializer, rename, qualified)
    &&& same_text(r.entitlement, d.entitlement)
    &&& r.span == d.span
}

/// An assignment target with its expressions rewritten.
pub open spec fn target_rewritten(
    t: AssignTarget,
    r: AssignTarget,
    rename: spec_fn(Seq<char>) -> Seq<char>,
    qualified: spec_fn(Seq<char>, Seq<char>) -> Option<Seq<char>>,
) -> bool {
    match t {
        AssignTarget::Identifier(n) => r matches AssignTarget::Identifier(m) && m@ == n@,
        AssignTarget::Index { array, index } => r matches AssignTarget::Index {
            array: a2,
            index: i2,
        } && expr_rewritten(array, a2, rename, qualified) && expr_rewritten(index, i2, rename, qualified),
    }
}

/// `r` is the statement `s` with every expression in it rewritten.
pub open spec fn stmt_rewritten(s: Stmt, r: Stmt, rename: spec_fn(Seq<char>) -> Seq<char>,
    qualified: spec_fn(Seq<char>, Seq<char>) -> Option<Seq<char>>) -> bool
    decreases s,
{
    match s {
        Stmt::VarDecl(d) => r matches Stmt::VarDecl(d2) && var_rewritten(d, d2, rename, qualified),
        Stmt::Assign { target, value, span } => r matches Stmt::Assign {
            target: t2,
            value: v2,
            span: s2,
        } && s2 == span && target_rewritten(target, t2, rename, qualified) && expr_rewritten(
            value,
            v2,
            rename,
        qualified,
        ),
        Stmt::If { condition, then_branch, else_branch, span } => r matches Stmt::If {
            condition: c2,
            then_branch: t2,
            else_branch: e2,
            span: s2,
        } && s2 == span && expr_rewritten(condition, c2, rename, qualified) && t2@.len()
            == then_branch@.len() && (forall|i: int|
            0 <= i < then_branch@.len() ==> stmt_rewritten(#[trigger] then_branch@[i], t2@[i], rename, qualified))
            && e2@.len() == else_branch@.len() && (forall|i: int|
            0 <= i < else_branch@.len() ==> stmt_rewritten(#[trigger] else_branch@[i], e2@[i], rename, qualified)),
        Stmt::While { condition, body, span } => r matches Stmt::While {
            condition: c2,
            body: b2,
            span: s2,
        } && s2 == span && expr_rewritten(condition, c2, rename, qualified) && b2@.len() == body@.len() && (
        forall|i: int| 0 <= i < body@.len() ==> stmt_rewritten(#[trigger] body@[i], b2@[i], rename, qualified)),
        Stmt::DoWhile { body, condition, span } => r matches Stmt::DoWhile {
            body: b2,
            condition: c2,
            span: s2,
        } && s2 == span && expr_rewritten(condition, c2, rename, qualified) && b2@.len() == body@.len() && (
        forall|i: int| 0 <= i < body@.len() ==> stmt_rewritten(#[trigger] body@[i], b2@[i], rename, qualified)),
        Stmt::Expr { expr, span } => r matches Stmt::Expr { expr: e2, span: s2 } && s2 == span
            && expr_rewritten(expr, e2, rename, qualified),
        Stmt::Block { statements, span } => r matches Stmt::Block { statements: b2, span: s2 }
            && s2 == span && b2@.len() == statements@.len() && (forall|i: int|
            0 <= i < statements@.len() ==> stmt_rewritten(
                #[trigger] statements@[i],
                b2@[i],
                rename,
            qualified,
            )),
        Stmt::Return { value, span } => r matches Stmt::Return { value: v2, span: s2 } && s2 == span
            && match (value, v2) {
            (Some(a), Some(b)) => expr_rewritten(a, b, rename, qualified),
            (None, None) => true,
            _ => false,
        },
    }
}

/// Two parameter lists have the same names, types and spans.
pub open spec fn same_params(a: Seq<FuncParam>, b: Seq<FuncParam>) -> bool {
    &&& a.len() == b.len()
    &&& forall|i: int|
        0 <= i < a.len() ==> (#[trigger] a[i]).name@ == b[i].name@ && a[i].ty == b[i].ty && a[i].span
            == b[i].span
}

/// `r` is the item `item` rewritten: a function gets the name that `rename`
/// gives it, and every expression is rewritten.
pub open spec fn item_rewritten(item: Item, r: Item, rename: spec_fn(Seq<char>) -> Seq<char>,
    qualified: spec_fn(Seq<char>, Seq<char>) -> Option<Seq<char>>) -> bool {
    match item {
        Item::Capability(c) => r matches Item::Capability(c2) && c2.name@ == c.name@ && c2.span
            == c.span && expr_rewritten(c.initializer, c2.initializer, rename, qualified),
        Item::Right(c) => r matches Item::Right(c2) && c2.name@ == c.name@ && c2.span == c.span
            && expr_rewritten(c.initializer, c2.initializer, rename, qualified),
        Item::Var(v) => r matches Item::Var(v2) && var_rewritten(v, v2, rename, qualified),
        Item::Func(f) => r matches Item::Func(g) && g.name@ == rename(f.name@) && same_params(
            f.params@,
            g.params@,
        ) && g.return_type == f.return_type && same_text(g.right, f.right) && g.span == f.span
            && g.body@.len() == f.body@.len() && forall|i: int|
            0 <= i < f.body@.len() ==> stmt_rewritten(#[trigger] f.body@[i], g.body@[i], rename, qualified),
    }
}

/// How the source being rewritten renames its plain calls.
pub open spec fn ctx_rename(tables: NameMap<NameMap<String>>, module: Seq<char>) -> spec_fn(Seq<char>) -> Seq<char> {
    |n: Seq<char>| mapped_function_name(tables, module, n)
}

/// The merged name of a qualified call `module.name` to a source module
/// that the source being rewritten imports.
pub open spec fn qualified_target(local: Seq<char>, found: Option<Seq<char>>, name: Seq<char>) -> Seq<char> {
    match found {
        Some(g) => g,
        None => sanitized(local) + "__"@ + name,
    }
}

/// How the source being rewritten maps its qualified calls.
pub open spec fn ctx_qualified(tables: NameMap<NameMap<String>>, local_imports: Seq<String>) -> spec_fn(
    Seq<char>,
    Seq<char>,
) -> Option<Seq<char>> {
    |m: Seq<char>, n: Seq<char>|
        match imported_local_module(tables, local_imports, m) {
            Some(local) => Some(qualified_target(local, table_lookup(tables, local, n), n)),
            None => None,
        }
}

/// The diagnostics `b` are `a` when `ok` holds, and hold more errors than `a`
/// otherwise.
pub open spec fn reports_unless(a: Seq<DiagnosticView>, b: Seq<DiagnosticView>, ok: bool) -> bool {
    &&& ok ==> b == a
    &&& !ok ==> error_count(a) < error_count(b)
}

proof fn lemma_reports_chain(
    a: Seq<DiagnosticView>,
    b: Seq<DiagnosticView>,
    c: Seq<DiagnosticView>,
    p: bool,
    q: bool,
)
    requires
        grows(a, b),
        grows(b, c),
        reports_unless(a, b, p),
        reports_unless(b, c, q),
    ensures
        reports_unless(a, c, p && q),
{
}

/// A call target that `ok` accepts: a plain name, or a qualified call that
/// `ok` accepts.
pub open spec fn callee_ok(c: CallTarget, ok: spec_fn(Seq<char>, Seq<char>) -> bool) -> bool {
    c matches CallTarget::Qualified { module, name } ==> ok(module@, name@)
}

/// Every qualified call in `e` is one that `ok` accepts.
pub open spec fn expr_calls_ok(e: Expr, ok: spec_fn(Seq<char>, Seq<char>) -> bool) -> bool
    decreases e,
{
    match e {
        Expr::ArrayLiteral(items, _) => forall|i: int|
            0 <= i < items@.len() ==> expr_calls_ok(#[trigger] items@[i], ok),
        Expr::Index { array, index, .. } => expr_calls_ok(*array, ok) && expr_calls_ok(*index, ok),
        Expr::NewObject { args, .. } => forall|i: int|
            0 <= i < args@.len() ==> expr_calls_ok(#[trigger] args@[i], ok),
        Expr::Call { callee, args, .. } => callee_ok(callee, ok) && forall|i: int|
            0 <= i < args@.len() ==> expr_calls_ok(#[trigger] args@[i], ok),
        Expr::Unary { expr, .. } => expr_calls_ok(*expr, ok),
        Expr::Binary { left, right, .. } => expr_calls_ok(*left, ok) && expr_calls_ok(*right, ok),
        Expr::Ternary { condition, then_expr, else_expr, .. } => expr_calls_ok(*condition, ok)
            && expr_calls_ok(*then_expr, ok) && expr_calls_ok(*else_expr, ok),
        _ => true,
    }
}

/// Every qualified call in an assignment target is one that `ok` accepts.
pub open spec fn target_calls_ok(t: AssignTarget, ok: spec_fn(Seq<char>, Seq<char>) -> bool) -> bool {
    match t {
        AssignTarget::Identifier(_) => true,
        AssignTarget::Index { array, index } => expr_calls_ok(array, ok) && expr_calls_ok(index, ok),
    }
}

/// Every qualified call in the statement `s` is one that `ok` accepts.
pub open spec fn stmt_calls_ok(s: Stmt, ok: spec_fn(Seq<char>, Seq<char>) -> bool) -> bool
    decreases s,
{
    match s {
        Stmt::VarDecl(d) => expr_calls_ok(d.initializer, ok),
        Stmt::Assign { target, value, .. } => target_calls_ok(target, ok) && expr_calls_ok(value, ok),
        Stmt::If { condition, then_branch, else_branch, .. } => expr_calls_ok(condition, ok) && (forall|
            i: int,
        | 0 <= i < then_branch@.len() ==> stmt_calls_ok(#[trigger] then_branch@[i], ok)) && (forall|
            i: int,
        | 0 <= i < else_branch@.len() ==> stmt_calls_ok(#[trigger] else_branch@[i], ok)),
        Stmt::While { condition, body, .. } => expr_calls_ok(condition, ok) && forall|i: int|
            0 <= i < body@.len() ==> stmt_calls_ok(#[trigger] body@[i], ok),
        Stmt::DoWhile { body, condition, .. } => expr_calls_ok(condition, ok) && forall|i: int|
            0 <= i < body@.len() ==> stmt_calls_ok(#[trigger] body@[i], ok),
        Stmt::Expr { expr, .. } => expr_calls_ok(expr, ok),
        Stmt::Block { statements, .. } => forall|i: int|
            0 <= i < statements@.len() ==> stmt_calls_ok(#[trigger] statements@[i], ok),
        Stmt::Return { value, .. } => match value {
            Some(e) => expr_calls_ok(e, ok),
            None => true,
        },
    }
}

/// Every qualified call in the item is one that `ok` accepts.
pub open spec fn item_calls_ok(item: Item, ok: spec_fn(Seq<char>, Seq<char>) -> bool) -> bool {
    match item {
        Item::Capability(c) => expr_calls_ok(c.initializer, ok),
        Item::Right(c) => expr_calls_ok(c.initializer, ok),
        Item::Var(v) => expr_calls_ok(v.initializer, ok),
        Item::Func(f) => forall|i: int| 0 <= i < f.body@.len() ==> stmt_calls_ok(#[trigger] f.body@[i], ok),
    }
}

/// The qualified calls that the source being rewritten may make without an
/// error: any call that does not go to an imported source module, and a call
/// of a function that the module defines.
pub open spec fn ctx_ok(tables: NameMap<NameMap<String>>, local_imports: Seq<String>) -> spec_fn(
    Seq<char>,
    Seq<char>,
) -> bool {
    |m: Seq<char>, n: Seq<char>|
        match imported_local_module(tables, local_imports, m) {
            Some(local) => table_lookup(tables, local, n) is Some,
            None => true,
        }
}

fn transform_exprs(items: &Vec<Expr>, ctx: &TransformCtx, diagnostics: &mut Diagnostics) -> (r: Vec<
    Expr,
>)
    ensures
        grows(old(diagnostics)@, final(diagnostics)@),
        reports_unless(
            old(diagnostics)@,
            final(diagnostics)@,
            forall|i: int| 0 <= i < items@.len() ==> expr_calls_ok(#[trigger] items@[i], ctx_ok(*ctx.tables, ctx.local_imports@)),
        ),
        r@.len() == items@.len(),
        forall|i: int|
            0 <= i < items@.len() ==> expr_rewritten(
                #[trigger] items@[i],
                r@[i],
                ctx_rename(*ctx.tables, ctx.module_name@),
                ctx_qualified(*ctx.tables, ctx.local_imports@),
            ),
    decreases items@,
{
    let mut out: Vec<Expr> = Vec::new();
    let mut i: usize = 0;
    while i < items.len()
        invariant
            i <= items@.len(),
            out@.len() == i,
            grows(old(diagnostics)@, diagnostics@),
            reports_unless(
                old(diagnostics)@,
                diagnostics@,
                forall|k: int| 0 <= k < i ==> expr_calls_ok(#[trigger] items@[k], ctx_ok(*ctx.tables, ctx.local_imports@)),
            ),
            forall|k: int|
                0 <= k < i ==> expr_rewritten(
                    #[trigger] items@[k],
                    out@[k],
                    ctx_rename(*ctx.tables, ctx.module_name@),
                ctx_qualified(*ctx.tables, ctx.local_imports@),
                ),
        decreases items.len() - i,
    {
        let ghost before = diagnostics@;
        let e = transform_expr(&items[i], ctx, diagnostics);
        proof {
            let ok = ctx_ok(*ctx.tables, ctx.local_imports@);
            lemma_reports_chain(
                old(diagnostics)@,
                before,
                diagnostics@,
                forall|k: int| 0 <= k < i ==> expr_calls_ok(#[trigger] items@[k], ok),
                expr_calls_ok(items@[i as int], ok),
            );
            assert((forall|k: int| 0 <= k < i + 1 ==> expr_calls_ok(#[trigger] items@[k], ok)) == ((
            forall|k: int| 0 <= k < i ==> expr_calls_ok(#[trigger] items@[k], ok)) && expr_calls_ok(
                items@[i as int],
                ok,
            )));
        }
        out.push(e);
        i += 1;
    }
    out
}

fn transform_expr(expr: &Expr, ctx: &TransformCtx, diagnostics: &mut Diagnostics) -> (r: Expr)
    ensures
        grows(old(diagnostics)@, final(diagnostics)@),
        reports_unless(old(diagnostics)@, final(diagnostics)@, expr_calls_ok(*expr, ctx_ok(*ctx.tables, ctx.local_imports@))),
        expr_rewritten(*expr, r, ctx_rename(*ctx.tables, ctx.module_name@),
                ctx_qualified(*ctx.tables, ctx.local_imports@)),
    decreases expr,
{
    match expr {
        Expr::IntLiteral(value, span) => Expr::IntLiteral(*value, *span),
        Expr::FloatLiteral(text, span) => Expr::FloatLiteral(text.clone(), *span),
        Expr::StringLiteral(text, span) => Expr::StringLiteral(text.clone(), *span),
        Expr::BoolLiteral(value, span) => Expr::BoolLiteral(*value, *span),
        Expr::Identifier(name, span) => Expr::Identifier(name.clone(), *span),
        Expr::ArrayLiteral(items, span) => Expr::ArrayLiteral(
            transform_exprs(items, ctx, diagnostics),
            *span,
        ),
        Expr::Index { array, index, span } => {
            let a = transform_expr(array, ctx, diagnostics);
            let i = transform_expr(index, ctx, diagnostics);
            Expr::Index { array: Box::new(a), index: Box::new(i), span: *span }
        },
        Expr::NewObject { kind, args, span } => {
            let transformed = transform_exprs(args, ctx, diagnostics);
            Expr::NewObject { kind: kind.clone(), args: transformed, span: *span }
        },
        Expr::Call { callee, args, span } => {
            let transformed_args = transform_exprs(args, ctx, diagnostics);
            let transformed_callee = transform_callee(callee, *span, ctx, diagnostics);
            Expr::Call { callee: transformed_callee, args: transformed_args, span: *span }
        },
        Expr::Unary { op, expr: inner, span } => {
            let e = transform_expr(inner, ctx, diagnostics);
            Expr::Unary { op: *op, expr: Box::new(e), span: *span }
        },
        Expr::Binary { left, op, right, span } => {
            let l = transform_expr(left, ctx, diagnostics);
            let r = transform_expr(right, ctx, diagnostics);
            Expr::Binary { left: Box::new(l), op: *op, right: Box::new(r), span: *span }
        },
        Expr::Ternary { condition, then_expr, else_expr, span } => {
            let c = transform_expr(condition, ctx, diagnostics);
            let t = transform_expr(then_expr, ctx, diagnostics);
            let e = transform_expr(else_expr, ctx, diagnostics);
            Expr::Ternary {
                condition: Box::new(c),
                then_expr: Box::new(t),
                else_expr: Box::new(e),
                span: *span,
            }
        },
    }
}

fn transform_var_decl(decl: &VarDecl, ctx: &TransformCtx, diagnostics: &mut Diagnostics) -> (r:
    VarDecl)
    ensures
        grows(old(diagnostics)@, final(diagnostics)@),
        reports_unless(old(diagnostics)@, final(diagnostics)@, expr_calls_ok(decl.initializer, ctx_ok(*ctx.tables, ctx.local_imports@))),
        var_rewritten(*decl, r, ctx_rename(*ctx.tables, ctx.module_name@),
                ctx_qualified(*ctx.tables, ctx.local_imports@)),
{
    let initializer = transform_expr(&decl.initializer, ctx, diagnostics);
    VarDecl {
        name: decl.name.clone(),
        explicit_type: match &decl.explicit_type {
            Some(t) => Some(t.duplicate()),
            None => None,
        },
        initializer,
        entitlement: match &decl.entitlement {
            Some(e) => Some(e.clone()),
            None => None,
        },
        span: decl.span,
    }
}

fn transform_assign_target(
    target: &AssignTarget,
    ctx: &TransformCtx,
    diagnostics: &mut Diagnostics,
) -> (r: AssignTarget)
    ensures
        grows(old(diagnostics)@, final(diagnostics)@),
        reports_unless(old(diagnostics)@, final(diagnostics)@, target_calls_ok(*target, ctx_ok(*ctx.tables, ctx.local_imports@))),
        target_rewritten(*target, r, ctx_rename(*ctx.tables, ctx.module_name@),
                ctx_qualified(*ctx.tables, ctx.local_imports@)),
{
    match target {
        AssignTarget::Identifier(name) => AssignTarget::Identifier(name.clone()),
        AssignTarget::Index { array, index } => {
            let a = transform_expr(array, ctx, diagnostics);
            let i = transform_expr(index, ctx, diagnostics);
            AssignTarget::Index { array: a, index: i }
        },
    }
}

fn transform_stmts(statements: &Vec<Stmt>, ctx: &TransformCtx, diagnostics: &mut Diagnostics) -> (r:
    Vec<Stmt>)
    ensures
        grows(old(diagnostics)@, final(diagnostics)@),
        reports_unless(
            old(diagnostics)@,
            final(diagnostics)@,
            forall|i: int| 0 <= i < statements@.len() ==> stmt_calls_ok(#[trigger] statements@[i], ctx_ok(*ctx.tables, ctx.local_imports@)),
        ),
        r@.len() == statements@.len(),
        forall|i: int|
            0 <= i < statements@.len() ==> stmt_rewritten(
                #[trigger] statements@[i],
                r@[i],
                ctx_rename(*ctx.tables, ctx.module_name@),
                ctx_qualified(*ctx.tables, ctx.local_imports@),
            ),
    decreases statements@,
{
    let mut out: Vec<Stmt> = Vec::new();
    let mut i: usize = 0;
    while i < statements.len()
        invariant
            i <= statements@.len(),
            out@.len() == i,
            grows(old(diagnostics)@, diagnostics@),
            reports_unless(
                old(diagnostics)@,
                diagnostics@,
                forall|k: int| 0 <= k < i ==> stmt_calls_ok(#[trigger] statements@[k], ctx_ok(*ctx.tables, ctx.local_imports@)),
            ),
            forall|k: int|
                0 <= k < i ==> stmt_rewritten(
                    #[trigger] statements@[k],
                    out@[k],
                    ctx_rename(*ctx.tables, ctx.module_name@),
                ctx_qualified(*ctx.tables, ctx.local_imports@),
                ),
        decreases statements.len() - i,
    {
        let ghost before = diagnostics@;
        let s = transform_stmt(&statements[i], ctx, diagnostics);
        proof {
            let ok = ctx_ok(*ctx.tables, ctx.local_imports@);
            lemma_reports_chain(
                old(diagnostics)@,
                before,
                diagnostics@,
                forall|k: int| 0 <= k < i ==> stmt_calls_ok(#[trigger] statements@[k], ok),
                stmt_calls_ok(statements@[i as int], ok),
            );
            assert((forall|k: int| 0 <= k < i + 1 ==> stmt_calls_ok(#[trigger] statements@[k], ok))
                == ((forall|k: int| 0 <= k < i ==> stmt_calls_ok(#[trigger] statements@[k], ok))
                && stmt_calls_ok(statements@[i as int], ok)));
        }
        out.push(s);
        i += 1;
    }
    out
}

fn transform_stmt(statement: &Stmt, ctx: &TransformCtx, diagnostics: &mut Diagnostics) -> (r: Stmt)
    ensures
        grows(old(diagnostics)@, final(diagnostics)@),
        reports_unless(old(diagnostics)@, final(diagnostics)@, stmt_calls_ok(*statement, ctx_ok(*ctx.tables, ctx.local_imports@))),
        stmt_rewritten(*statement, r, ctx_rename(*ctx.tables, ctx.module_name@),
                ctx_qualified(*ctx.tables, ctx.local_imports@)),
    decreases statement,
{
    match statement {
        Stmt::VarDecl(decl) => Stmt::VarDecl(transform_var_decl(decl, ctx, diagnostics)),
        Stmt::Assign { target, value, span } => {
            let t = transform_assign_target(target, ctx, diagnostics);
            let v = transform_expr(value, ctx, diagnostics);
            Stmt::Assign { target: t, value: v, span: *span }
        },
        Stmt::If { condition, then_branch, else_branch, span } => {
            let c = transform_expr(condition, ctx, diagnostics);
            let t = transform_stmts(then_branch, ctx, diagnostics);
            let e = transform_stmts(else_branch, ctx, diagnostics);
            Stmt::If { condition: c, then_branch: t, else_branch: e, span: *span }
        },
        Stmt::While { condition, body, span } => {
            let c = transform_expr(condition, ctx, diagnostics);
            let b = transform_stmts(body, ctx, diagnostics);
            Stmt::While { condition: c, body: b, span: *span }
        },
        Stmt::DoWhile { body, condition, span } => {
            let b = transform_stmts(body, ctx, diagnostics);
            let c = transform_expr(condition, ctx, diagnostics);
            Stmt::DoWhile { body: b, condition: c, span: *span }
        },
        Stmt::Expr { expr, span } => {
            let e = transform_expr(expr, ctx, diagnostics);
            Stmt::Expr { expr: e, span: *span }
        },
        Stmt::Block { statements, span } => {
            let b = transform_stmts(statements, ctx, diagnostics);
            Stmt::Block { statements: b, span: *span }
        },
        Stmt::Return { value, span } => {
            let v = match value {
                Some(e) => Some(transform_expr(e, ctx, diagnostics)),
                None => None,
            };
            Stmt::Return { value: v, span: *span }
        },
    }
}

/// The merged name of a function of the source being rewritten.
pub open spec fn mapped_function_name(
    tables: NameMap<NameMap<String>>,
    module: Seq<char>,
    name: Seq<char>,
) -> Seq<char> {
    match table_lookup(tables, module, name) {
        Some(g) => g,
        None => name,
    }
}

fn transform_function_decl(
    decl: &FuncDecl,
    ctx: &TransformCtx,
    diagnostics: &mut Diagnostics,
) -> (r: FuncDecl)
    ensures
        grows(old(diagnostics)@, final(diagnostics)@),
        reports_unless(old(diagnostics)@, final(diagnostics)@, item_calls_ok(Item::Func(*decl), ctx_ok(*ctx.tables, ctx.local_imports@))),
        item_rewritten(Item::Func(*decl), Item::Func(r), ctx_rename(*ctx.tables, ctx.module_name@),
                ctx_qualified(*ctx.tables, ctx.local_imports@)),
{
    let name = match lookup_local_function(ctx.module_name, decl.name.as_str(), ctx.tables) {
        Some(global_name) => global_name,
        None => decl.name.clone(),
    };
    let mut params: Vec<FuncParam> = Vec::new();
    let mut i: usize = 0;
    while i < decl.params.len()
        invariant
            i <= decl.params@.len(),
            params@.len() == i,
            forall|k: int|
                0 <= k < i ==> (#[trigger] decl.params@[k]).name@ == params@[k].name@
                    && decl.params@[k].ty == params@[k].ty && decl.params@[k].span == params@[k].span,
        decreases decl.params.len() - i,
    {
        let p = &decl.params[i];
        params.push(FuncParam { name: p.name.clone(), ty: p.ty.duplicate(), span: p.span });
        i += 1;
    }
    let body = transform_stmts(&decl.body, ctx, diagnostics);
    FuncDecl {
        name,
        params,
        return_type: decl.return_type.duplicate(),
        right: match &decl.right {
            Some(r) => Some(r.clone()),
            None => None,
        },
        body,
        span: decl.span,
    }
}

fn transform_item(item: &Item, ctx: &TransformCtx, diagnostics: &mut Diagnostics) -> (r: Item)
    ensures
        grows(old(diagnostics)@, final(diagnostics)@),
        reports_unless(old(diagnostics)@, final(diagnostics)@, item_calls_ok(*item, ctx_ok(*ctx.tables, ctx.local_imports@))),
        item_rewritten(*item, r, ctx_rename(*ctx.tables, ctx.module_name@),
                ctx_qualified(*ctx.tables, ctx.local_imports@)),
{
    match item {
        Item::Capability(decl) => {
            let initializer = transform_expr(&decl.initializer, ctx, diagnostics);
            Item::Capability(
                CapabilityDecl { name: decl.name.clone(), initializer, span: decl.span },
            )
        },
        Item::Right(decl) => {
            let initializer = transform_expr(&decl.initializer, ctx, diagnostics);
            Item::Right(RightDecl { name: decl.name.clone(), initializer, span: decl.span })
        },
        Item::Var(decl) => Item::Var(transform_var_decl(decl, ctx, diagnostics)),
        Item::Func(decl) => Item::Func(transform_function_decl(decl, ctx, diagnostics)),
    }
}

// ---------------------------------------------------------------------------
// Aliases and imports
// ---------------------------------------------------------------------------

fn resolve_local_module(alias_map: &NameMap<String>, module_name: &str) -> (r: Option<String>)
    ensures
        match r {
            Some(m) => alias_map.get_spec(normalized(module_name@)) matches Some(v) && v@ == m@,
            None => alias_map.get_spec(normalized(module_name@)) is None,
        },
{
    let key = normalize_module_name(module_name);
    match alias_map.get(key.as_str()) {
        Some(m) => Some(m.clone()),
        None => None,
    }
}

proof fn lemma_owner_stays(sources: Seq<ParsedSource>, upto: int, m: int, key: Seq<char>)
    requires
        0 <= upto <= m,
        alias_owner(sources, upto, key) is Some,
    ensures
        alias_owner(sources, m, key) == alias_owner(sources, upto, key),
    decreases m - upto,
{
    if m > upto {
        lemma_owner_stays(sources, upto, m - 1, key);
    }
}

/// Maps every normalized alias of a source to its module name; an alias that
/// two modules claim is an error.
fn build_alias_map(
    sources: &[ParsedSource],
    metas: &Vec<SourceMeta>,
    diagnostics: &mut Diagnostics,
) -> (r: NameMap<String>)
    requires
        metas_fit(metas@, sources@),
    ensures
        grows(old(diagnostics)@, final(diagnostics)@),
        alias_map_fits(r, sources@, sources@.len() as int),
        error_count(final(diagnostics)@) == error_count(old(diagnostics)@) ==> aliases_consistent(
            sources@,
            sources@.len() as int,
        ),
        aliases_consistent(sources@, sources@.len() as int) ==> final(diagnostics)@ == old(
            diagnostics,
        )@,
{
    let mut map: NameMap<String> = NameMap::new();
    let mut i: usize = 0;
    while i < metas.len()
        invariant
            i <= metas@.len(),
            metas_fit(metas@, sources@),
            grows(old(diagnostics)@, diagnostics@),
            alias_map_fits(map, sources@, i as int),
            error_count(diagnostics@) == error_count(old(diagnostics)@) ==> aliases_consistent(
                sources@,
                i as int,
            ),
            aliases_consistent(sources@, sources@.len() as int) ==> diagnostics@ == old(diagnostics)@,
        decreases metas.len() - i,
    {
        let meta = &metas[i];
        assert(meta.module_name@ == module_of(sources@[i as int]));
        assert(crate::sorting::text_set(meta.aliases@) == alias_candidates(sources@[i as int]));
        let mut k: usize = 0;
        while k < meta.aliases.len()
            invariant
                k <= meta.aliases@.len(),
                i < sources@.len(),
                meta.module_name@ == module_of(sources@[i as int]),
                meta == &metas@[i as int],
                metas_fit(metas@, sources@),
                grows(old(diagnostics)@, diagnostics@),
                aliases_consistent(sources@, sources@.len() as int) ==> diagnostics@ == old(
                    diagnostics,
                )@,
                error_count(diagnostics@) == error_count(old(diagnostics)@) ==> aliases_consistent(
                    sources@,
                    i as int,
                ),
                error_count(diagnostics@) == error_count(old(diagnostics)@) ==> forall|u: int|
                    0 <= u < k && normalized(meta.aliases@[u]@).len() > 0 ==> ((#[trigger] map.get_spec(
                        normalized(meta.aliases@[u]@),
                    )) matches Some(v) && v@ == module_of(sources@[i as int])),
                forall|key: Seq<char>|
                    #![trigger map.get_spec(key)]
                    {
                        &&& (map.get_spec(key) is Some <==> (alias_owner(sources@, i as int, key) is Some
                            || (key.len() > 0 && exists|u: int|
                            0 <= u < k && normalized(#[trigger] meta.aliases@[u]@) == key)))
                        &&& (map.get_spec(key) matches Some(v) ==> v@ == match alias_owner(
                            sources@,
                            i as int,
                            key,
                        ) {
                            Some(o) => module_of(sources@[o]),
                            None => module_of(sources@[i as int]),
                        })
                    },
            decreases meta.aliases.len() - k,
        {
            let alias = &meta.aliases[k];
            let key = normalize_module_name(alias.as_str());
            if !crate::text::is_empty_str(key.as_str()) {
                match map.get(key.as_str()) {
                    Some(existing) => {
                        if !str_eq(existing.as_str(), meta.module_name.as_str()) {
                            proof {
                                let q = normalized(alias@);
                                assert(map.get_spec(q) matches Some(v) && v@ == existing@);
                                let o = alias_owner(sources@, i as int, q)->0;
                                assert(alias_owner(sources@, i as int, q) is Some);
                                assert(crate::sorting::text_set(meta.aliases@).contains(alias@));
                                assert(alias_candidates(sources@[i as int]).contains(alias@));
                                assert(answers_to(sources@[i as int], q));
                                lemma_owner_stays(sources@, i as int, sources@.len() as int, q);
                                assert(module_of(sources@[o]) != module_of(sources@[i as int]));
                                assert(!aliases_consistent(sources@, sources@.len() as int));
                            }
                            let mut message = string_of("Ambiguous local module alias '");
                            push_str(&mut message, alias.as_str());
                            push_str(&mut message, "': '");
                            push_str(&mut message, existing.as_str());
                            push_str(&mut message, "' and '");
                            push_str(&mut message, meta.module_name.as_str());
                            push_str(&mut message, "'");
                            diagnostics.error(None, message);
                        }
                    },
                    None => {
                        map.insert(key, meta.module_name.clone());
                    },
                }
            }
            proof {
                assert forall|q: Seq<char>| #![trigger map.get_spec(q)]
                    (map.get_spec(q) is Some <==> (alias_owner(sources@, i as int, q) is Some || (q.len()
                        > 0 && exists|u: int| 0 <= u < k + 1 && normalized(#[trigger] meta.aliases@[u]@) == q)))
                    by {
                    if q.len() > 0 && exists|u: int| 0 <= u < k + 1 && normalized(#[trigger] meta.aliases@[u]@) == q {
                        let u = choose|u: int| 0 <= u < k + 1 && normalized(#[trigger] meta.aliases@[u]@) == q;
                        if u < k {
                            assert(exists|w: int| 0 <= w < k && normalized(#[trigger] meta.aliases@[w]@) == q);
                        }
                    }
                    if exists|u: int| 0 <= u < k && normalized(#[trigger] meta.aliases@[u]@) == q {
                        let u = choose|u: int| 0 <= u < k && normalized(#[trigger] meta.aliases@[u]@) == q;
                        assert(0 <= u < k + 1 && normalized(meta.aliases@[u]@) == q);
                    }
                }
            }
            k += 1;
        }
        proof {
            assert forall|q: Seq<char>| #![trigger map.get_spec(q)]
                (map.get_spec(q) is Some <==> alias_owner(sources@, i + 1, q) is Some) && (map.get_spec(q) matches Some(v)
                    ==> v@ == module_of(sources@[alias_owner(sources@, i + 1, q)->0])) by {
                let found = exists|u: int|
                    0 <= u < meta.aliases@.len() && normalized(#[trigger] meta.aliases@[u]@) == q;
                if found {
                    let u = choose|u: int|
                        0 <= u < meta.aliases@.len() && normalized(#[trigger] meta.aliases@[u]@) == q;
                    let a = meta.aliases@[u]@;
                    assert(crate::sorting::text_set(meta.aliases@).contains(a));
                    assert(alias_candidates(sources@[i as int]).contains(a));
                }
                if answers_to(sources@[i as int], q) {
                    let a = choose|a: Seq<char>| #[trigger] alias_candidates(sources@[i as int]).contains(a) && normalized(a) == q;
                    assert(crate::sorting::text_set(meta.aliases@).contains(a));
                    let u = choose|u: int| 0 <= u < meta.aliases@.len() && #[trigger] meta.aliases@[u]@ == a;
                    assert(normalized(meta.aliases@[u]@) == q);
                }
            }
            if error_count(diagnostics@) == error_count(old(diagnostics)@) {
                assert forall|j: int, q: Seq<char>|
                    0 <= j < i + 1 && q.len() > 0 && #[trigger] answers_to(sources@[j], q) implies (
                    alias_owner(sources@, i + 1, q) matches Some(o) && module_of(sources@[o])
                        == module_of(sources@[j])) by {
                    if j == i {
                        let a = choose|a: Seq<char>| #[trigger] alias_candidates(sources@[i as int]).contains(a) && normalized(a) == q;
                        assert(crate::sorting::text_set(meta.aliases@).contains(a));
                        let u = choose|u: int| 0 <= u < meta.aliases@.len() && #[trigger] meta.aliases@[u]@ == a;
                        assert(normalized(meta.aliases@[u]@).len() > 0);
                        assert(map.get_spec(q) is Some);
                    }
                }
            }
        }
        i += 1;
    }
    map
}

/// No module is imported twice.
pub open spec fn distinct_modules(imports: Seq<ImportDecl>) -> bool {
    forall|a: int, b: int|
        0 <= a < b < imports.len() ==> (#[trigger] imports[a]).module@ != (#[trigger] imports[b]).module@
}

fn imports_module(imports: &Vec<ImportDecl>, module: &str) -> (b: bool)
    ensures
        b == exists|k: int| 0 <= k < imports@.len() && #[trigger] imports@[k].module@ == module@,
{
    let mut k: usize = 0;
    while k < imports.len()
        invariant
            k <= imports@.len(),
            forall|j: int| 0 <= j < k ==> imports@[j].module@ != module@,
        decreases imports.len() - k,
    {
        if str_eq(imports[k].module.as_str(), module) {
            return true;
        }
        k += 1;
    }
    false
}

/// The source module that an import of `module` in source `i` names, when it
/// names a source with another module name.
pub open spec fn local_import_target(sources: Seq<ParsedSource>, i: int, module: Seq<char>) -> Option<
    Seq<char>,
> {
    match alias_owner(sources, sources.len() as int, normalized(module)) {
        Some(o) => if module_of(sources[o]) != module_of(sources[i]) {
            Some(module_of(sources[o]))
        } else {
            None
        },
        None => None,
    }
}

/// Whether source `i` imports the source module `local`.
pub open spec fn imports_local(sources: Seq<ParsedSource>, i: int, local: Seq<char>) -> bool {
    exists|k: int|
        0 <= k < sources[i].program.imports@.len() && local_import_target(
            sources,
            i,
            (#[trigger] sources[i].program.imports@[k]).module@,
        ) == Some(local)
}

/// The runtime imports gathered from the sources before source `i`.
pub open spec fn runtime_imports_before(sources: Seq<ParsedSource>, i: int) -> Seq<(Seq<char>, Span)>
    decreases i, 0int,
{
    if i <= 0 || i > sources.len() {
        Seq::empty()
    } else {
        runtime_imports_within(sources, i - 1, sources[i - 1].program.imports@.len() as int)
    }
}

/// The runtime imports gathered up to import `k` of source `i`: an import that
/// names no other source is kept unless its module is already kept.
pub open spec fn runtime_imports_within(sources: Seq<ParsedSource>, i: int, k: int) -> Seq<
    (Seq<char>, Span),
>
    decreases i, (if k > 0 {
        k
    } else {
        0
    }) + 1,
{
    if k <= 0 || i < 0 || i >= sources.len() || k > sources[i].program.imports@.len() {
        runtime_imports_before(sources, i)
    } else {
        let kept = runtime_imports_within(sources, i, k - 1);
        let import = sources[i].program.imports@[k - 1];
        if local_import_target(sources, i, import.module@) is None && !(exists|q: int|
            0 <= q < kept.len() && (#[trigger] kept[q]).0 == import.module@) {
            kept.push((import.module@, import.span))
        } else {
            kept
        }
    }
}

/// The imports of all sources: those that name another source go to that
/// source's local imports, the others are kept once each for the runtime.
fn collect_imports(
    sources: &[ParsedSource],
    metas: &Vec<SourceMeta>,
    alias_map: &NameMap<String>,
) -> (r: (Vec<ImportDecl>, Vec<Vec<String>>))
    requires
        metas_fit(metas@, sources@),
        alias_map_fits(*alias_map, sources@, sources@.len() as int),
    ensures
        distinct_modules(r.0@),
        crate::parser::import_views(r.0@) == runtime_imports_before(sources@, sources@.len() as int),
        r.1@.len() == sources@.len(),
        forall|i: int, local: Seq<char>|
            0 <= i < sources@.len() ==> (#[trigger] has_text(r.1@[i]@, local) <==> imports_local(
                sources@,
                i,
                local,
            )),
{
    let mut runtime_imports: Vec<ImportDecl> = Vec::new();
    let mut local_imports_by_source: Vec<Vec<String>> = Vec::new();
    let mut i: usize = 0;
    assert(crate::parser::import_views(runtime_imports@) =~= runtime_imports_before(sources@, 0));
    while i < sources.len()
        invariant
            i <= sources@.len(),
            metas_fit(metas@, sources@),
            alias_map_fits(*alias_map, sources@, sources@.len() as int),
            distinct_modules(runtime_imports@),
            crate::parser::import_views(runtime_imports@) == runtime_imports_before(sources@, i as int),
            local_imports_by_source@.len() == i,
            forall|j: int, local: Seq<char>|
                0 <= j < i ==> (#[trigger] has_text(local_imports_by_source@[j]@, local)
                    <==> imports_local(sources@, j, local)),
        decreases sources.len() - i,
    {
        let current_module = &metas[i].module_name;
        let imports = &sources[i].program.imports;
        let mut local_imports: Vec<String> = Vec::new();
        let mut k: usize = 0;
        assert(runtime_imports_within(sources@, i as int, 0) == runtime_imports_before(sources@, i as int));
        while k < imports.len()
            invariant
                k <= imports@.len(),
                i < sources@.len(),
                imports@ == sources@[i as int].program.imports@,
                current_module@ == module_of(sources@[i as int]),
                alias_map_fits(*alias_map, sources@, sources@.len() as int),
                distinct_modules(runtime_imports@),
                crate::parser::import_views(runtime_imports@) == runtime_imports_within(
                    sources@,
                    i as int,
                    k as int,
                ),
                forall|local: Seq<char>|
                    #[trigger] has_text(local_imports@, local) <==> exists|q: int|
                        0 <= q < k && local_import_target(
                            sources@,
                            i as int,
                            (#[trigger] imports@[q]).module@,
                        ) == Some(local),
            decreases imports.len() - k,
        {
            let import = &imports[k];
            let ghost target = local_import_target(sources@, i as int, import.module@);
            let mut is_local = false;
            let ghost locals_before = local_imports@;
            match resolve_local_module(alias_map, import.module.as_str()) {
                Some(local_module) => {
                    if !str_eq(local_module.as_str(), current_module.as_str()) {
                        let ghost lm = local_module@;
                        if !contains_text(&local_imports, local_module.as_str()) {
                            local_imports.push(local_module);
                            proof {
                                assert forall|l: Seq<char>| #[trigger] has_text(local_imports@, l)
                                    <==> (has_text(locals_before, l) || lm == l) by {
                                    if has_text(local_imports@, l) {
                                        let w = choose|w: int| 0 <= w < local_imports@.len() && #[trigger] local_imports@[w]@ == l;
                                        if w < locals_before.len() {
                                            assert(locals_before[w] == local_imports@[w]);
                                        }
                                    }
                                    if has_text(locals_before, l) {
                                        let w = choose|w: int| 0 <= w < locals_before.len() && #[trigger] locals_before[w]@ == l;
                                        assert(local_imports@[w] == locals_before[w]);
                                    }
                                    if lm == l {
                                        assert(local_imports@[locals_before.len() as int]@ == l);
                                    }
                                }
                            }
                        }
                        proof {
                            assert(target == Some(lm));
                        }
                        is_local = true;
                    }
                },
                None => {},
            }
            proof {
                assert(is_local == (target is Some));
                assert forall|l: Seq<char>| #[trigger] has_text(local_imports@, l)
                    <==> (has_text(locals_before, l) || target == Some(l)) by {}
                assert forall|local: Seq<char>|
                    #[trigger] has_text(local_imports@, local) <==> exists|q: int|
                        0 <= q < k + 1 && local_import_target(
                            sources@,
                            i as int,
                            (#[trigger] imports@[q]).module@,
                        ) == Some(local) by {
                    if has_text(locals_before, local) {
                        let q = choose|q: int| 0 <= q < k && local_import_target(
                            sources@,
                            i as int,
                            (#[trigger] imports@[q]).module@,
                        ) == Some(local);
                        assert(0 <= q < k + 1);
                    }
                    if target == Some(local) {
                        assert(local_import_target(sources@, i as int, imports@[k as int].module@) == Some(local));
                    }
                    if exists|q: int| 0 <= q < k + 1 && local_import_target(
                        sources@,
                        i as int,
                        (#[trigger] imports@[q]).module@,
                    ) == Some(local) {
                        let q = choose|q: int| 0 <= q < k + 1 && local_import_target(
                            sources@,
                            i as int,
                            (#[trigger] imports@[q]).module@,
                        ) == Some(local);
                        if q < k {
                            assert(has_text(locals_before, local));
                        }
                    }
                }
            }
            let ghost kept = crate::parser::import_views(runtime_imports@);
            let seen = imports_module(&runtime_imports, import.module.as_str());
            proof {
                assert(seen == exists|q: int| 0 <= q < kept.len() && (#[trigger] kept[q]).0 == import.module@) by {
                    if seen {
                        let q = choose|q: int| 0 <= q < runtime_imports@.len() && #[trigger] runtime_imports@[q].module@ == import.module@;
                        assert(kept[q].0 == import.module@);
                    }
                    if exists|q: int| 0 <= q < kept.len() && (#[trigger] kept[q]).0 == import.module@ {
                        let q = choose|q: int| 0 <= q < kept.len() && (#[trigger] kept[q]).0 == import.module@;
                        assert(runtime_imports@[q].module@ == import.module@);
                    }
                }
            }
            if !is_local && !seen {
                let ghost before = runtime_imports@;
                runtime_imports.push(ImportDecl { module: import.module.clone(), span: import.span });
                assert(crate::parser::import_views(runtime_imports@) =~= kept.push((import.module@, import.span)));
                assert forall|a: int, b: int|
                    0 <= a < b < runtime_imports@.len() implies (#[trigger] runtime_imports@[a]).module@
                    != (#[trigger] runtime_imports@[b]).module@ by {
                    if b == before.len() {
                        assert(runtime_imports@[a] == before[a]);
                        assert(kept[a].0 == before[a].module@);
                    } else {
                        assert(runtime_imports@[a] == before[a] && runtime_imports@[b] == before[b]);
                    }
                }
            }
            k += 1;
        }
        proof {
            assert(imports@.len() == sources@[i as int].program.imports@.len());
        }
        local_imports_by_source.push(local_imports);
        i += 1;
    }
    (runtime_imports, local_imports_by_source)
}

// ---------------------------------------------------------------------------
// Merging
// ---------------------------------------------------------------------------

/// The number of items of all sources.
pub open spec fn total_items(sources: Seq<ParsedSource>) -> nat
    decreases sources.len(),
{
    if sources.len() == 0 {
        0
    } else {
        total_items(sources.drop_last()) + sources.last().program.body.items@.len()
    }
}

/// How the functions that source `index` calls by plain name are renamed.
pub open spec fn source_rename(sources: Seq<ParsedSource>, index: int) -> spec_fn(Seq<char>) -> Seq<char> {
    |n: Seq<char>| renamed_function(sources, index, n)
}

/// The merged name of function `name` of the source module `local`, when that
/// module defines it.
pub open spec fn source_lookup(sources: Seq<ParsedSource>, local: Seq<char>, name: Seq<char>) -> Option<
    Seq<char>,
> {
    let owner = last_source_of_module(sources, local);
    if owner >= 0 && defines_function(sources[owner].program.body.items@, name) {
        Some(global_function_name(sources, owner, name))
    } else {
        None
    }
}

/// How source `index` maps its qualified calls: a call `module.name` whose
/// module names (after normalizing) a source module that the source imports
/// goes to that module's merged function name, or to the module-prefixed name
/// when the module does not define it.
pub open spec fn source_qualified(sources: Seq<ParsedSource>, index: int) -> spec_fn(
    Seq<char>,
    Seq<char>,
) -> Option<Seq<char>> {
    |m: Seq<char>, n: Seq<char>|
        match first_source_module(sources, normalized(m)) {
            Some(local) => if imports_local(sources, index, local) {
                Some(qualified_target(local, source_lookup(sources, local, n), n))
            } else {
                None
            },
            None => None,
        }
}

/// The qualified calls that source `index` may make without an error: any
/// call whose module (after normalizing) names no source module that the source
/// imports, and a call of a function that such a module defines.
pub open spec fn source_ok(sources: Seq<ParsedSource>, index: int) -> spec_fn(Seq<char>, Seq<char>) -> bool {
    |m: Seq<char>, n: Seq<char>|
        match first_source_module(sources, normalized(m)) {
            Some(local) => imports_local(sources, index, local) ==> source_lookup(sources, local, n) is Some,
            None => true,
        }
}

/// Every qualified call of every source is one that the source may make.
pub open spec fn sources_calls_ok(sources: Seq<ParsedSource>) -> bool {
    forall|s: int, j: int|
        0 <= s < sources.len() && 0 <= j < sources[s].program.body.items@.len() ==> item_calls_ok(
            #[trigger] sources[s].program.body.items@[j],
            source_ok(sources, s),
        )
}

/// Where the items of source `index` start in the merged program.
pub open spec fn item_offset(sources: Seq<ParsedSource>, index: int) -> nat {
    total_items(sources.take(index))
}

proof fn lemma_offset_bound(sources: Seq<ParsedSource>, s: int, i: int)
    requires
        0 <= s < i <= sources.len(),
    ensures
        item_offset(sources, s) + sources[s].program.body.items@.len() <= total_items(
            sources.take(i),
        ),
    decreases i,
{
    assert(sources.take(i).drop_last() =~= sources.take(i - 1));
    assert(sources.take(i).last() == sources[i - 1]);
    if s < i - 1 {
        lemma_offset_bound(sources, s, i - 1);
    }
}

proof fn lemma_owner_at_least(sources: Seq<ParsedSource>, s: int)
    requires
        0 <= s < sources.len(),
    ensures
        last_source_of_module(sources, module_of(sources[s])) >= s,
    decreases sources.len(),
{
    if module_of(sources.last()) != module_of(sources[s]) {
        assert(s < sources.len() - 1);
        assert(sources.drop_last()[s] == sources[s]);
        lemma_owner_at_least(sources.drop_last(), s);
    }
}

proof fn lemma_mapped_is_renamed(
    tables: NameMap<NameMap<String>>,
    sources: Seq<ParsedSource>,
    s: int,
    n: Seq<char>,
)
    requires
        tables_hold(tables, sources, sources.len() as int),
        0 <= s < sources.len(),
    ensures
        mapped_function_name(tables, module_of(sources[s]), n) == renamed_function(sources, s, n),
{
    let m = module_of(sources[s]);
    assert(sources.take(sources.len() as int) =~= sources);
    lemma_owner_at_least(sources, s);
    lemma_last_source_bounds(sources, m);
    let owner = last_source_of_module(sources, m);
    assert(tables.get_spec(m) is Some);
    let table = tables.get_spec(m)->0;
    let items = sources[owner].program.body.items@;
    assert(items.take(items.len() as int) =~= items);
    assert(table.get_spec(n) == table.get_spec(n));
}

proof fn lemma_table_lookup_is_source_lookup(
    tables: NameMap<NameMap<String>>,
    sources: Seq<ParsedSource>,
    local: Seq<char>,
    n: Seq<char>,
)
    requires
        tables_hold(tables, sources, sources.len() as int),
    ensures
        table_lookup(tables, local, n) == source_lookup(sources, local, n),
{
    assert(sources.take(sources.len() as int) =~= sources);
    lemma_last_source_bounds(sources, local);
    let owner = last_source_of_module(sources, local);
    if owner >= 0 {
        let table = tables.get_spec(local)->0;
        let items = sources[owner].program.body.items@;
        assert(items.take(items.len() as int) =~= items);
        assert(table.get_spec(n) == table.get_spec(n));
    } else {
        assert(tables.get_spec(local) is None);
    }
}

/// Merges the parsed sources into one program. The first source is the entry:
/// its body names the program and its functions keep their names; functions of
/// the other sources are renamed after their module, and calls between sources
/// are rewritten to the merged names.
pub fn merge_sources(sources: &[ParsedSource], diagnostics: &mut Diagnostics) -> (r: Option<Program>)
    ensures
        grows(old(diagnostics)@, final(diagnostics)@),
        sources@.len() == 0 ==> final(diagnostics)@ == old(diagnostics)@.push(
            error_at(None, "No Checkbe input files were provided"@),
        ),
        r is Some <==> (sources@.len() > 0 && !has_error(final(diagnostics)@)),
        sources@.len() > 0 ==> (has_error(final(diagnostics)@) <==> (has_error(old(diagnostics)@)
            || !aliases_consistent(sources@, sources@.len() as int) || !sources_calls_ok(sources@))),
        r matches Some(p) ==> (p.body.name@ == sources@[0].program.body.name@ && p.body.span
            == sources@[0].program.body.span),
        r matches Some(p) ==> p.body.items@.len() == total_items(sources@),
        r matches Some(p) ==> distinct_modules(p.imports@),
        r matches Some(p) ==> crate::parser::import_views(p.imports@) == runtime_imports_before(
            sources@,
            sources@.len() as int,
        ),
        r matches Some(p) ==> forall|s: int, j: int|
            0 <= s < sources@.len() && 0 <= j < sources@[s].program.body.items@.len()
                ==> item_rewritten(
                #[trigger] sources@[s].program.body.items@[j],
                #[trigger] p.body.items@[item_offset(sources@, s) + j],
                source_rename(sources@, s),
                source_qualified(sources@, s),
            ),
        r is Some ==> aliases_consistent(sources@, sources@.len() as int),
{
    if sources.len() == 0 {
        diagnostics.error(None, string_of("No Checkbe input files were provided"));
        proof {
            crate::diagnostics::lemma_has_error_iff_count(diagnostics@);
        }
        return None;
    }
    let mut metas: Vec<SourceMeta> = Vec::new();
    let mut i: usize = 0;
    while i < sources.len()
        invariant
            i <= sources@.len(),
            metas@.len() == i,
            forall|k: int|
                0 <= k < i ==> (#[trigger] metas@[k]).module_name@ == module_of(sources@[k])
                    && metas@[k].sanitized_module_name@ == sanitized(module_of(sources@[k]))
                    && crate::sorting::text_set(metas@[k].aliases@) == alias_candidates(sources@[k]),
        decreases sources.len() - i,
    {
        metas.push(build_source_meta(&sources[i]));
        i += 1;
    }
    let ghost d0 = diagnostics@;
    let alias_map = build_alias_map(sources, &metas, diagnostics);
    let ghost d1 = diagnostics@;
    let tables = build_function_tables(sources, &metas);
    let (runtime_imports, local_imports_by_source) = collect_imports(sources, &metas, &alias_map);

    let mut merged: Vec<Item> = Vec::new();
    let mut i: usize = 0;
    while i < sources.len()
        invariant
            i <= sources@.len(),
            metas_fit(metas@, sources@),
            tables_hold(tables, sources@, sources@.len() as int),
            local_imports_by_source@.len() == sources@.len(),
            forall|key: Seq<char>|
                #[trigger] first_module_matching(tables.entries(), key) == first_source_module(
                    sources@,
                    key,
                ),
            forall|j: int, local: Seq<char>|
                0 <= j < sources@.len() ==> (#[trigger] has_text(local_imports_by_source@[j]@, local)
                    <==> imports_local(sources@, j, local)),
            grows(old(diagnostics)@, diagnostics@),
            grows(d1, diagnostics@),
            reports_unless(
                d1,
                diagnostics@,
                forall|s: int, j: int|
                    0 <= s < i && 0 <= j < sources@[s].program.body.items@.len() ==> item_calls_ok(
                        #[trigger] sources@[s].program.body.items@[j],
                        source_ok(sources@, s),
                    ),
            ),
            merged@.len() == total_items(sources@.take(i as int)),
            forall|s: int, j: int|
                0 <= s < i && 0 <= j < sources@[s].program.body.items@.len()
                    ==> item_rewritten(
                    #[trigger] sources@[s].program.body.items@[j],
                    #[trigger] merged@[item_offset(sources@, s) + j],
                    source_rename(sources@, s),
                    source_qualified(sources@, s),
                ),
        decreases sources.len() - i,
    {
        let source = &sources[i];
        let context = TransformCtx {
            path: source.path.as_str(),
            module_name: metas[i].module_name.as_str(),
            local_imports: &local_imports_by_source[i],
            tables: &tables,
        };
        let items = &source.program.body.items;
        let ghost start = merged@.len();
        proof {
            assert forall|m: Seq<char>, n: Seq<char>| #[trigger] ctx_qualified(tables, context.local_imports@)(m, n)
                == source_qualified(sources@, i as int)(m, n) by {
                let key = normalized(m);
                assert(first_module_matching(tables.entries(), key) == first_source_module(sources@, key));
                if let Some(local) = first_source_module(sources@, key) {
                    assert(has_text(local_imports_by_source@[i as int]@, local) <==> imports_local(
                        sources@,
                        i as int,
                        local,
                    ));
                    lemma_table_lookup_is_source_lookup(tables, sources@, local, n);
                }
            }
            assert(ctx_qualified(tables, context.local_imports@) =~= source_qualified(sources@, i as int));
            assert forall|m: Seq<char>, n: Seq<char>| #[trigger] ctx_ok(tables, context.local_imports@)(m, n)
                == source_ok(sources@, i as int)(m, n) by {
                let key = normalized(m);
                assert(first_module_matching(tables.entries(), key) == first_source_module(sources@, key));
                if let Some(local) = first_source_module(sources@, key) {
                    assert(has_text(local_imports_by_source@[i as int]@, local) <==> imports_local(
                        sources@,
                        i as int,
                        local,
                    ));
                    lemma_table_lookup_is_source_lookup(tables, sources@, local, n);
                }
            }
            assert(ctx_ok(tables, context.local_imports@) =~= source_ok(sources@, i as int));
        }
        proof {
            assert(sources@.take(i + 1).drop_last() =~= sources@.take(i as int));
            assert(sources@.take(i + 1).last() == sources@[i as int]);
        }
        proof {
            assert forall|s: int| 0 <= s < i implies #[trigger] item_offset(sources@, s)
                + sources@[s].program.body.items@.len() <= start by {
                lemma_offset_bound(sources@, s, i as int);
            }
        }
        let mut j: usize = 0;
        while j < items.len()
            invariant
                j <= items@.len(),
                i < sources@.len(),
                forall|s: int| 0 <= s < i ==> #[trigger] item_offset(sources@, s)
                    + sources@[s].program.body.items@.len() <= start,
                items@ == sources@[i as int].program.body.items@,
                context.module_name@ == module_of(sources@[i as int]),
                *context.tables == tables,
                tables_hold(tables, sources@, sources@.len() as int),
                ctx_qualified(tables, context.local_imports@) == source_qualified(sources@, i as int),
                ctx_ok(tables, context.local_imports@) == source_ok(sources@, i as int),
                start == total_items(sources@.take(i as int)),
                merged@.len() == start + j,
                grows(old(diagnostics)@, diagnostics@),
                grows(d1, diagnostics@),
                reports_unless(
                    d1,
                    diagnostics@,
                    (forall|s: int, k: int|
                        0 <= s < i && 0 <= k < sources@[s].program.body.items@.len() ==> item_calls_ok(
                            #[trigger] sources@[s].program.body.items@[k],
                            source_ok(sources@, s),
                        )) && (forall|k: int|
                        0 <= k < j ==> item_calls_ok(#[trigger] items@[k], source_ok(sources@, i as int))),
                ),
                forall|s: int, k: int|
                    0 <= s < i && 0 <= k < sources@[s].program.body.items@.len()
                        ==> item_rewritten(
                        #[trigger] sources@[s].program.body.items@[k],
                        #[trigger] merged@[item_offset(sources@, s) + k],
                        source_rename(sources@, s),
                        source_qualified(sources@, s),
                    ),
                forall|k: int|
                    0 <= k < j ==> item_rewritten(
                        items@[k],
                        #[trigger] merged@[start + k],
                        source_rename(sources@, i as int),
                        source_qualified(sources@, i as int),
                    ),
            decreases items.len() - j,
        {
            let ghost before = diagnostics@;
            let item = transform_item(&items[j], &context, diagnostics);
            proof {
                let ok = source_ok(sources@, i as int);
                let earlier = forall|s: int, k: int|
                    0 <= s < i && 0 <= k < sources@[s].program.body.items@.len() ==> item_calls_ok(
                        #[trigger] sources@[s].program.body.items@[k],
                        source_ok(sources@, s),
                    );
                lemma_reports_chain(
                    d1,
                    before,
                    diagnostics@,
                    earlier && (forall|k: int| 0 <= k < j ==> item_calls_ok(#[trigger] items@[k], ok)),
                    item_calls_ok(items@[j as int], ok),
                );
                assert((forall|k: int| 0 <= k < j + 1 ==> item_calls_ok(#[trigger] items@[k], ok)) == ((
                forall|k: int| 0 <= k < j ==> item_calls_ok(#[trigger] items@[k], ok)) && item_calls_ok(
                    items@[j as int],
                    ok,
                )));
                assert forall|n: Seq<char>| #[trigger] ctx_rename(tables, module_of(sources@[i as int]))(n)
                    == source_rename(sources@, i as int)(n) by {
                    lemma_mapped_is_renamed(tables, sources@, i as int, n);
                }
                assert(ctx_rename(tables, module_of(sources@[i as int])) =~= source_rename(
                    sources@,
                    i as int,
                ));
            }
            merged.push(item);
            j += 1;
        }
        proof {
            let ok = source_ok(sources@, i as int);
            assert((forall|s: int, k: int|
                0 <= s < i + 1 && 0 <= k < sources@[s].program.body.items@.len() ==> item_calls_ok(
                    #[trigger] sources@[s].program.body.items@[k],
                    source_ok(sources@, s),
                )) == ((forall|s: int, k: int|
                0 <= s < i && 0 <= k < sources@[s].program.body.items@.len() ==> item_calls_ok(
                    #[trigger] sources@[s].program.body.items@[k],
                    source_ok(sources@, s),
                )) && (forall|k: int| 0 <= k < items@.len() ==> item_calls_ok(#[trigger] items@[k], ok))));
            assert(item_offset(sources@, i as int) == start);
            assert forall|s: int, k: int|
                0 <= s < i + 1 && 0 <= k < sources@[s].program.body.items@.len()
                    implies item_rewritten(
                    #[trigger] sources@[s].program.body.items@[k],
                    #[trigger] merged@[item_offset(sources@, s) + k],
                    source_rename(sources@, s),
                    source_qualified(sources@, s),
                ) by {
                if s == i {
                    assert(item_rewritten(
                        items@[k],
                        merged@[start + k],
                        source_rename(sources@, i as int),
                        source_qualified(sources@, i as int),
                    ));
                }
            }
        }
        i += 1;
    }
    proof {
        assert(sources@.take(sources@.len() as int) =~= sources@);
        crate::diagnostics::lemma_has_error_iff_count(diagnostics@);
        crate::diagnostics::lemma_has_error_iff_count(d0);
        let consistent = aliases_consistent(sources@, sources@.len() as int);
        assert(reports_unless(d0, d1, consistent));
        lemma_reports_chain(d0, d1, diagnostics@, consistent, sources_calls_ok(sources@));
        if has_error(d0) {
            let w = choose|w: int| 0 <= w < d0.len() && d0[w].severity == crate::diagnostics::Severity::Error;
            assert(diagnostics@[w] == d0[w]);
        }
    }
    if diagnostics.has_errors() {
        return None;
    }
    assert(error_count(d1) == error_count(d0));
    let entry_body = &sources[0].program.body;
    Some(
        Program {
            imports: runtime_imports,
            body: BodyDecl { name: entry_body.name.clone(), items: merged, span: entry_body.span },
        },
    )
}

/// No two sources share a module name.
pub open spec fn distinct_source_modules(sources: Seq<ParsedSource>) -> bool {
    forall|a: int, b: int|
        0 <= a < b < sources.len() ==> module_of(#[trigger] sources[a]) != module_of(
            #[trigger] sources[b],
        )
}

proof fn lemma_owner_is_self(sources: Seq<ParsedSource>, s: int)
    requires
        0 <= s < sources.len(),
        distinct_source_modules(sources),
    ensures
        last_source_of_module(sources, module_of(sources[s])) == s,
    decreases sources.len(),
{
    if s < sources.len() - 1 {
        assert(module_of(sources[s]) != module_of(sources[sources.len() - 1]));
        assert(sources.drop_last()[s] == sources[s]);
        assert forall|a: int, b: int|
            0 <= a < b < sources.drop_last().len() implies module_of(
                #[trigger] sources.drop_last()[a],
            ) != module_of(#[trigger] sources.drop_last()[b]) by {
            assert(sources.drop_last()[a] == sources[a] && sources.drop_last()[b] == sources[b]);
        }
        lemma_owner_is_self(sources.drop_last(), s);
    }
}

/// When no two sources share a module name, every function keeps its name in
/// the entry source and is prefixed with its sanitized module name in the
/// others.
pub proof fn lemma_functions_named_after_module(sources: Seq<ParsedSource>, s: int, name: Seq<char>)
    requires
        0 <= s < sources.len(),
        distinct_source_modules(sources),
        defines_function(sources[s].program.body.items@, name),
    ensures
        s == 0 ==> renamed_function(sources, s, name) == name,
        s > 0 ==> renamed_function(sources, s, name) == sanitized(module_of(sources[s])) + "__"@
            + name,
{
    lemma_owner_is_self(sources, s);
}

} // verus!
