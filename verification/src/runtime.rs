use vstd::prelude::*;

use crate::module_system::{string_views, ModuleRegistry};
use crate::sorting::{sorted_unique, strictly_sorted, text_set};
use crate::text::{
    file_stem_of, is_whitespace, path_file_stem, push_str, spec_is_whitespace, str_eq,
    string_from_chars, string_of, to_chars,
};

verus! {

/// What linking a program needs from the runtime: the compiled core, the
/// static libraries of the imported modules and the garbage collector's
/// library directory.
#[derive(Debug)]
pub struct RuntimeArtifacts {
    pub core_object: String,
    pub module_libraries: Vec<String>,
    pub gc_lib_dir: String,
}

/// A program to run and the arguments to run it with.
#[derive(Debug)]
pub struct CommandLine {
    pub program: String,
    pub args: Vec<String>,
}

/// Whether two texts name the same path, as `std::path::Path` compares paths:
/// component by component.
pub uninterp spec fn same_path(a: Seq<char>, b: Seq<char>) -> bool;

/// Compares two paths with `==` on `std::path::Path`.
#[verifier::external_body]
fn paths_equal(a: &str, b: &str) -> (r: bool)
    ensures
        r == same_path(a@, b@),
{
    std::path::Path::new(a) == std::path::Path::new(b)
}

/// The paths of `paths` that no earlier path equals.
pub open spec fn unique_paths(paths: Seq<Seq<char>>) -> Seq<Seq<char>>
    decreases paths.len(),
{
    if paths.len() == 0 {
        Seq::empty()
    } else {
        let kept = unique_paths(paths.drop_last());
        if exists|k: int| 0 <= k < kept.len() && same_path(#[trigger] kept[k], paths.last()) {
            kept
        } else {
            kept.push(paths.last())
        }
    }
}

pub fn dedup_paths(paths: Vec<String>) -> (unique: Vec<String>)
    ensures
        string_views(unique@) == unique_paths(string_views(paths@)),
{
    let mut unique: Vec<String> = Vec::new();
    let mut i: usize = 0;
    while i < paths.len()
        invariant
            i <= paths@.len(),
            string_views(unique@) == unique_paths(string_views(paths@.take(i as int))),
        decreases paths.len() - i,
    {
        let path = &paths[i];
        assert(string_views(paths@.take(i + 1)).drop_last() =~= string_views(paths@.take(i as int)));
        assert(string_views(paths@.take(i + 1)).last() == paths@[i as int]@);
        let mut seen = false;
        let mut k: usize = 0;
        while k < unique.len()
            invariant
                k <= unique@.len(),
                seen == exists|j: int| 0 <= j < k && same_path(#[trigger] unique@[j]@, path@),
            decreases unique.len() - k,
        {
            if paths_equal(unique[k].as_str(), path.as_str()) {
                seen = true;
            }
            k += 1;
        }
        let ghost kept = string_views(unique@);
        assert(seen == exists|j: int| 0 <= j < kept.len() && same_path(#[trigger] kept[j], path@))
            by {
            if seen {
                let j = choose|j: int| 0 <= j < unique@.len() && same_path(#[trigger] unique@[j]@, path@);
                assert(kept[j] == unique@[j]@);
            }
            if exists|j: int| 0 <= j < kept.len() && same_path(#[trigger] kept[j], path@) {
                let j = choose|j: int| 0 <= j < kept.len() && same_path(#[trigger] kept[j], path@);
                assert(kept[j] == unique@[j]@);
            }
        }
        if !seen {
            unique.push(path.clone());
            assert(string_views(unique@) =~= kept.push(path@));
        }
        i += 1;
    }
    assert(paths@.take(paths@.len() as int) =~= paths@);
    unique
}

/// The index of the first flag that is set.
pub open spec fn first_set(flags: Seq<bool>) -> Option<int>
    decreases flags.len(),
{
    if flags.len() == 0 {
        None
    } else {
        match first_set(flags.drop_last()) {
            Some(i) => Some(i),
            None => if flags.last() {
                Some(flags.len() - 1)
            } else {
                None
            },
        }
    }
}

/// The flag that `first_set` finds is set, and no earlier one is.
pub proof fn lemma_first_set_is_first(flags: Seq<bool>)
    ensures
        first_set(flags) matches Some(i) ==> 0 <= i < flags.len() && flags[i] && forall|j: int|
            0 <= j < i ==> !flags[j],
        first_set(flags) is None ==> forall|j: int| 0 <= j < flags.len() ==> !flags[j],
    decreases flags.len(),
{
    if flags.len() > 0 {
        lemma_first_set_is_first(flags.drop_last());
        assert forall|j: int| 0 <= j < flags.len() - 1 implies flags.drop_last()[j] == flags[j] by {}
    }
}

/// No two paths that `dedup_paths` keeps are equal.
pub proof fn lemma_unique_paths_distinct(paths: Seq<Seq<char>>)
    ensures
        forall|i: int, j: int|
            0 <= i < j < unique_paths(paths).len() ==> !same_path(
                #[trigger] unique_paths(paths)[i],
                #[trigger] unique_paths(paths)[j],
            ),
    decreases paths.len(),
{
    if paths.len() > 0 {
        lemma_unique_paths_distinct(paths.drop_last());
        let kept = unique_paths(paths.drop_last());
        let u = unique_paths(paths);
        if !(exists|k: int| 0 <= k < kept.len() && same_path(#[trigger] kept[k], paths.last())) {
            assert(u == kept.push(paths.last()));
            assert forall|i: int, j: int| 0 <= i < j < u.len() implies !same_path(
                #[trigger] u[i],
                #[trigger] u[j],
            ) by {
                assert(u[i] == kept[i]);
                if j < kept.len() {
                    assert(u[j] == kept[j]);
                }
            }
        }
    }
}

fn first_present(candidates: &[String], present: &[bool]) -> (r: Option<String>)
    requires
        candidates@.len() == present@.len(),
    ensures
        match first_set(present@) {
            Some(i) => r matches Some(c) && c@ == candidates@[i]@,
            None => r is None,
        },
{
    let mut i: usize = 0;
    while i < present.len()
        invariant
            i <= present@.len(),
            candidates@.len() == present@.len(),
            first_set(present@.take(i as int)) is None,
        decreases present.len() - i,
    {
        assert(present@.take(i + 1).drop_last() =~= present@.take(i as int));
        if present[i] {
            proof {
                lemma_first_set_prefix(present@, i as int + 1);
            }
            return Some(candidates[i].clone());
        }
        i += 1;
    }
    assert(present@.take(present@.len() as int) =~= present@);
    None
}

proof fn lemma_first_set_prefix(flags: Seq<bool>, n: int)
    requires
        0 < n <= flags.len(),
        first_set(flags.take(n)) is Some,
    ensures
        first_set(flags) == first_set(flags.take(n)),
    decreases flags.len() - n,
{
    if n < flags.len() {
        assert(flags.take(n + 1).drop_last() =~= flags.take(n));
        lemma_first_set_prefix(flags, n + 1);
    } else {
        assert(flags.take(n) =~= flags);
    }
}

/// The first search root that holds the runtime's core source; `core_present`
/// says, root by root, whether `core/runtime.c` exists under it.
pub fn pick_runtime_root(search_roots: &[String], core_present: &[bool]) -> (r: Option<String>)
    requires
        search_roots@.len() == core_present@.len(),
    ensures
        match first_set(core_present@) {
            Some(i) => r matches Some(root) && root@ == search_roots@[i]@,
            None => r is None,
        },
{
    first_present(search_roots, core_present)
}

/// The first module descriptor that exists among the candidates, one per search
/// root; `present` says which of them exist.
pub fn find_module_descriptor(candidates: &[String], present: &[bool]) -> (r: Option<String>)
    requires
        candidates@.len() == present@.len(),
    ensures
        match first_set(present@) {
            Some(i) => r matches Some(c) && c@ == candidates@[i]@,
            None => r is None,
        },
{
    first_present(candidates, present)
}

/// The arguments of the link step.
pub open spec fn link_args(
    object_path: Seq<char>,
    output_path: Seq<char>,
    core_object: Seq<char>,
    libraries: Seq<Seq<char>>,
    gc_lib_dir: Seq<char>,
) -> Seq<Seq<char>> {
    seq![object_path, core_object] + libraries + seq![
        "-L"@ + gc_lib_dir,
        "-lgc"@,
        "-lm"@,
        "-Wl,-rpath,"@ + gc_lib_dir,
        "-o"@,
        output_path,
    ]
}

fn push_arg(args: &mut Vec<String>, text: &str)
    ensures
        string_views(final(args)@) == string_views(old(args)@).push(text@),
{
    let ghost before = string_views(args@);
    args.push(string_of(text));
    assert(string_views(args@) =~= before.push(text@));
}

fn push_prefixed_arg(args: &mut Vec<String>, prefix: &str, text: &str)
    ensures
        string_views(final(args)@) == string_views(old(args)@).push(prefix@ + text@),
{
    let ghost before = string_views(args@);
    let mut arg = string_of(prefix);
    push_str(&mut arg, text);
    args.push(arg);
    assert(string_views(args@) =~= before.push(prefix@ + text@));
}

/// The `clang` command that links a program's object with the runtime.
pub fn link_binary(object_path: &str, output_path: &str, artifacts: &RuntimeArtifacts) -> (c:
    CommandLine)
    ensures
        c.program@ == "clang"@,
        string_views(c.args@) == link_args(
            object_path@,
            output_path@,
            artifacts.core_object@,
            string_views(artifacts.module_libraries@),
            artifacts.gc_lib_dir@,
        ),
{
    let mut args: Vec<String> = Vec::new();
    push_arg(&mut args, object_path);
    push_arg(&mut args, artifacts.core_object.as_str());
    let ghost base = string_views(args@);
    let libraries = &artifacts.module_libraries;
    let mut i: usize = 0;
    while i < libraries.len()
        invariant
            i <= libraries@.len(),
            string_views(args@) == base + string_views(libraries@.take(i as int)),
        decreases libraries.len() - i,
    {
        push_arg(&mut args, libraries[i].as_str());
        assert(string_views(libraries@.take(i + 1)) =~= string_views(libraries@.take(i as int)).push(
            libraries@[i as int]@,
        ));
        i += 1;
    }
    assert(libraries@.take(libraries@.len() as int) =~= libraries@);
    let ghost with_libraries = string_views(args@);
    push_prefixed_arg(&mut args, "-L", artifacts.gc_lib_dir.as_str());
    push_arg(&mut args, "-lgc");
    push_arg(&mut args, "-lm");
    push_prefixed_arg(&mut args, "-Wl,-rpath,", artifacts.gc_lib_dir.as_str());
    push_arg(&mut args, "-o");
    push_arg(&mut args, output_path);
    assert(string_views(args@) =~= link_args(
        object_path@,
        output_path@,
        artifacts.core_object@,
        string_views(artifacts.module_libraries@),
        artifacts.gc_lib_dir@,
    ));
    CommandLine { program: string_of("clang"), args }
}

/// The arguments that compile one C source.
pub open spec fn compile_args(source: Seq<char>, output: Seq<char>, include_dir: Option<Seq<char>>) -> Seq<
    Seq<char>,
> {
    seq!["-c"@, source, "-o"@, output, "-std=c11"@] + match include_dir {
        Some(dir) => seq!["-I"@ + dir],
        None => Seq::empty(),
    }
}

/// The `clang` command that compiles a C source to an object file.
pub fn compile_c_file(source: &str, output: &str, include_dir: Option<&str>) -> (c: CommandLine)
    ensures
        c.program@ == "clang"@,
        string_views(c.args@) == compile_args(
            source@,
            output@,
            match include_dir {
                Some(d) => Some(d@),
                None => None,
            },
        ),
{
    let mut args: Vec<String> = Vec::new();
    push_arg(&mut args, "-c");
    push_arg(&mut args, source);
    push_arg(&mut args, "-o");
    push_arg(&mut args, output);
    push_arg(&mut args, "-std=c11");
    match include_dir {
        Some(dir) => push_prefixed_arg(&mut args, "-I", dir),
        None => {},
    }
    assert(string_views(args@) =~= compile_args(
        source@,
        output@,
        match include_dir {
            Some(d) => Some(d@),
            None => None,
        },
    ));
    CommandLine { program: string_of("clang"), args }
}

/// The `ar` command that archives object files into a static library.
pub fn archive_static_library(library_path: &str, objects: &[String]) -> (c: CommandLine)
    ensures
        c.program@ == "ar"@,
        string_views(c.args@) == seq!["rcs"@, library_path@] + string_views(objects@),
{
    let mut args: Vec<String> = Vec::new();
    push_arg(&mut args, "rcs");
    push_arg(&mut args, library_path);
    let ghost base = string_views(args@);
    let mut i: usize = 0;
    while i < objects.len()
        invariant
            i <= objects@.len(),
            string_views(args@) == base + string_views(objects@.take(i as int)),
        decreases objects.len() - i,
    {
        push_arg(&mut args, objects[i].as_str());
        assert(string_views(objects@.take(i + 1)) =~= string_views(objects@.take(i as int)).push(
            objects@[i as int]@,
        ));
        i += 1;
    }
    assert(objects@.take(objects@.len() as int) =~= objects@);
    CommandLine { program: string_of("ar"), args }
}

/// The object file name for a source with the given stem; `module` stands in
/// for a missing stem.
pub fn object_file_name(stem: Option<String>) -> (r: String)
    ensures
        r@ == match stem {
            Some(s) => s@,
            None => "module"@,
        } + ".o"@,
{
    let mut name = match stem {
        Some(s) => s,
        None => string_of("module"),
    };
    push_str(&mut name, ".o");
    name
}

/// The object file name a native source compiles to: its file stem with `.o`.
pub fn source_to_object_name(source: &str) -> (r: String)
    ensures
        r@ == match path_file_stem(source@) {
            Some(s) => s,
            None => "module"@,
        } + ".o"@,
{
    object_file_name(file_stem_of(source))
}

/// One static library to build for the runtime: the module it is built for,
/// its name, and its native sources with the object file each compiles to.
#[derive(Debug)]
pub struct LibraryBuild {
    pub module_name: String,
    pub library_name: String,
    pub native_sources: Vec<String>,
    pub object_names: Vec<String>,
}

/// A library build that fits the registered module it names.
pub open spec fn planned_for(modules: ModuleRegistry, build: LibraryBuild) -> bool {
    &&& modules.module_spec(build.module_name@) matches Some(m)
    &&& m.spec.library@ == build.library_name@
    &&& m.spec.native_sources@ == build.native_sources@
    &&& build.object_names@.len() == build.native_sources@.len()
}

/// The library of the module registered under `key` is built for that module
/// or for one whose name sorts before it.
pub open spec fn covered(modules: ModuleRegistry, plan: Seq<LibraryBuild>, key: Seq<char>) -> bool {
    modules.module_spec(key) matches Some(m) ==> exists|a: int|
        0 <= a < plan.len() && (#[trigger] plan[a]).library_name@ == m.spec.library@
            && !crate::sorting::seq_less(key, plan[a].module_name@)
}

/// The libraries to build for the imported modules: modules in name order, and
/// a library only for the first module that names it.
pub fn plan_module_libraries(modules: &ModuleRegistry) -> (plan: Vec<LibraryBuild>)
    ensures
        forall|a: int, b: int|
            0 <= a < b < plan@.len() ==> (#[trigger] plan@[a]).library_name@ != (
            #[trigger] plan@[b]).library_name@,
        forall|a: int, b: int|
            0 <= a < b < plan@.len() ==> crate::sorting::seq_less(
                (#[trigger] plan@[a]).module_name@,
                (#[trigger] plan@[b]).module_name@,
            ),
        forall|a: int|
            0 <= a < plan@.len() ==> planned_for(*modules, #[trigger] plan@[a]),
        forall|key: Seq<char>| #[trigger] modules.module_spec(key) is Some ==> covered(*modules, plan@, key),
{
    let table = modules.modules();
    let mut collected: Vec<String> = Vec::new();
    let mut i: usize = 0;
    while i < table.len()
        invariant
            i <= table.entries().len(),
            collected@.len() == i,
            forall|j: int| 0 <= j < i ==> (#[trigger] collected@[j])@ == table.entries()[j].0@,
        decreases table.entries().len() - i,
    {
        let (name, _) = table.entry(i);
        collected.push(name.clone());
        i += 1;
    }
    let names = sorted_unique(&collected);
    proof {
        assert forall|key: Seq<char>| #[trigger] modules.module_spec(key) is Some implies exists|
            j: int,
        | 0 <= j < names@.len() && names@[j]@ == key by {
            assert(table.get_spec(key) == modules.module_spec(key));
            crate::names::lemma_lookup_has_entry(table.entries(), key);
            let e = choose|e: int| 0 <= e < table.entries().len() && #[trigger] table.entries()[e].0@ == key;
            assert(collected@[e]@ == key);
            assert(text_set(collected@).contains(key));
            assert(text_set(names@).contains(key));
        }
    }
    let mut plan: Vec<LibraryBuild> = Vec::new();
    let mut k: usize = 0;
    while k < names.len()
        invariant
            k <= names@.len(),
            strictly_sorted(names@),
            forall|r: Seq<char>| #[trigger] table.get_spec(r) == modules.module_spec(r),
            forall|a: int, b: int|
                0 <= a < b < plan@.len() ==> (#[trigger] plan@[a]).library_name@ != (
                #[trigger] plan@[b]).library_name@,
            forall|a: int|
                0 <= a < plan@.len() ==> exists|j: int|
                    0 <= j < k && (#[trigger] plan@[a]).module_name@ == names@[j]@,
            forall|a: int, b: int|
                0 <= a < b < plan@.len() ==> crate::sorting::seq_less(
                    (#[trigger] plan@[a]).module_name@,
                    (#[trigger] plan@[b]).module_name@,
                ),
            forall|a: int|
                0 <= a < plan@.len() ==> planned_for(*modules, #[trigger] plan@[a]),
            forall|j: int|
                0 <= j < k ==> covered(*modules, plan@, #[trigger] names@[j]@),
        decreases names.len() - k,
    {
        let module_name = &names[k];
        let ghost start = plan@;
        match modules.module(module_name.as_str()) {
            Some(module) => {
                let library_name = &module.spec.library;
                let mut taken = false;
                let mut p: usize = 0;
                while p < plan.len()
                    invariant
                        p <= plan@.len(),
                        taken == exists|q: int| 0 <= q < p && (#[trigger] plan@[q]).library_name@ == library_name@,
                    decreases plan.len() - p,
                {
                    if str_eq(plan[p].library_name.as_str(), library_name.as_str()) {
                        taken = true;
                    }
                    p += 1;
                }
                if !taken {
                    let sources = crate::sema::clone_strings(&module.spec.native_sources);
                    let mut object_names: Vec<String> = Vec::new();
                    let mut s: usize = 0;
                    while s < sources.len()
                        invariant
                            s <= sources@.len(),
                            object_names@.len() == s,
                        decreases sources.len() - s,
                    {
                        object_names.push(source_to_object_name(sources[s].as_str()));
                        s += 1;
                    }
                    let ghost before = plan@;
                    plan.push(
                        LibraryBuild {
                            module_name: module_name.clone(),
                            library_name: library_name.clone(),
                            native_sources: sources,
                            object_names,
                        },
                    );
                    proof {
                        assert forall|a: int, b: int|
                            0 <= a < b < plan@.len() implies (#[trigger] plan@[a]).library_name@
                            != (#[trigger] plan@[b]).library_name@ by {
                            if b == before.len() {
                                assert(plan@[a] == before[a]);
                            } else {
                                assert(plan@[a] == before[a] && plan@[b] == before[b]);
                            }
                        }
                        assert forall|a: int| 0 <= a < plan@.len() implies exists|j: int|
                            0 <= j < k + 1 && (#[trigger] plan@[a]).module_name@ == names@[j]@ by {
                            if a < before.len() {
                                assert(plan@[a] == before[a]);
                            } else {
                                assert(plan@[a].module_name@ == names@[k as int]@);
                            }
                        }
                        assert forall|a: int, b: int| 0 <= a < b < plan@.len() implies crate::sorting::seq_less(
                            (#[trigger] plan@[a]).module_name@,
                            (#[trigger] plan@[b]).module_name@,
                        ) by {
                            if b == before.len() {
                                assert(plan@[a] == before[a]);
                                let x = choose|x: int| 0 <= x < k && (#[trigger] before[a]).module_name@ == names@[x]@;
                                assert(plan@[b].module_name@ == names@[k as int]@);
                                assert(crate::sorting::seq_less(names@[x]@, names@[k as int]@));
                            } else {
                                assert(plan@[a] == before[a] && plan@[b] == before[b]);
                            }
                        }
                        assert forall|a: int| 0 <= a < plan@.len() implies planned_for(*modules, #[trigger] plan@[a]) by {
                            if a < before.len() {
                                assert(plan@[a] == before[a]);
                            }
                        }
                        assert(plan@[before.len() as int].library_name@ == library_name@);
                        crate::sorting::lemma_less_irreflexive(names@[k as int]@);
                    }
                } else {
                    proof {
                        let q = choose|q: int| 0 <= q < plan@.len() && (#[trigger] plan@[q]).library_name@ == library_name@;
                        let x = choose|x: int| 0 <= x < k && (#[trigger] plan@[q]).module_name@ == names@[x]@;
                        assert(crate::sorting::seq_less(names@[x]@, names@[k as int]@));
                        if crate::sorting::seq_less(names@[k as int]@, names@[x]@) {
                            crate::sorting::lemma_less_transitive(names@[x]@, names@[k as int]@, names@[x]@);
                            crate::sorting::lemma_less_irreflexive(names@[x]@);
                        }
                    }
                }
            },
            None => {},
        }
        proof {
            assert(plan@.len() >= start.len());
            assert forall|a: int| 0 <= a < start.len() implies plan@[a] == start[a] by {}
            assert forall|j: int| 0 <= j < k + 1 implies covered(*modules, plan@, #[trigger] names@[j]@) by {
                if j < k {
                    if let Some(m) = modules.module_spec(names@[j]@) {
                        let a = choose|a: int| 0 <= a < start.len() && (#[trigger] start[a]).library_name@
                            == m.spec.library@ && !crate::sorting::seq_less(names@[j]@, start[a].module_name@);
                        assert(plan@[a] == start[a]);
                    }
                }
            }
        }
        k += 1;
    }
    plan
}

// Reading `pkg-config --cflags --libs` output.

/// Start of the first word at or after `i`.
pub open spec fn word_start(cs: Seq<char>, i: int) -> int
    decreases cs.len() - i,
{
    if 0 <= i < cs.len() && spec_is_whitespace(cs[i]) {
        word_start(cs, i + 1)
    } else {
        i
    }
}

/// End of the word that starts at `i`.
pub open spec fn word_end(cs: Seq<char>, i: int) -> int
    decreases cs.len() - i,
{
    if 0 <= i < cs.len() && !spec_is_whitespace(cs[i]) {
        word_end(cs, i + 1)
    } else {
        i
    }
}

/// Skipping whitespace and reading a word never move backwards, and a word
/// that starts at a non-whitespace character is not empty.
pub proof fn lemma_word_bounds(cs: Seq<char>, i: int)
    requires
        0 <= i,
    ensures
        i <= word_start(cs, i),
        word_start(cs, i) < cs.len() ==> !spec_is_whitespace(cs[word_start(cs, i)]),
        i <= word_end(cs, i),
        i <= cs.len() ==> word_end(cs, i) <= cs.len(),
        i < cs.len() && !spec_is_whitespace(cs[i]) ==> i < word_end(cs, i),
    decreases cs.len() - i,
{
    if i < cs.len() {
        lemma_word_bounds(cs, i + 1);
    }
}

/// The whitespace-separated words of `cs` from position `i` on, in order.
pub open spec fn words_from(cs: Seq<char>, i: int) -> Seq<Seq<char>>
    decreases cs.len() - i,
{
    if i < 0 || word_start(cs, i) >= cs.len() {
        Seq::empty()
    } else {
        let s = word_start(cs, i);
        proof {
            lemma_word_bounds(cs, i);
            lemma_word_bounds(cs, s);
        }
        seq![cs.subrange(s, word_end(cs, s))] + words_from(cs, word_end(cs, s))
    }
}

/// A word that starts with `-` and the flag letter `f`.
pub open spec fn has_flag(w: Seq<char>, f: char) -> bool {
    w.len() >= 2 && w[0] == '-' && w[1] == f
}

/// What follows `-f` in the last word of `ws` that starts with it.
pub open spec fn flag_value(ws: Seq<Seq<char>>, f: char) -> Option<Seq<char>>
    decreases ws.len(),
{
    if ws.len() == 0 {
        None
    } else if has_flag(ws.last(), f) {
        Some(ws.last().subrange(2, ws.last().len() as int))
    } else {
        flag_value(ws.drop_last(), f)
    }
}

/// The garbage collector's headers and library directories that
/// `pkg-config` output names: the values of its last `-I` and `-L` words,
/// when it has both.
pub open spec fn pkg_config_dirs(text: Seq<char>) -> Option<(Seq<char>, Seq<char>)> {
    let ws = words_from(text, 0);
    match (flag_value(ws, 'I'), flag_value(ws, 'L')) {
        (Some(headers), Some(lib)) => Some((headers, lib)),
        _ => None,
    }
}

/// The view of an optional string.
pub open spec fn text_option(o: Option<String>) -> Option<Seq<char>> {
    match o {
        Some(s) => Some(s@),
        None => None,
    }
}

/// Reads the headers and library directories out of `pkg-config` output.
pub fn gc_dirs_from_pkg_config(text: &str) -> (r: Option<(String, String)>)
    ensures
        match r {
            Some((headers, lib)) => pkg_config_dirs(text@) == Some((headers@, lib@)),
            None => pkg_config_dirs(text@) is None,
        },
{
    let cs = to_chars(text);
    let n = cs.len();
    let mut headers: Option<String> = None;
    let mut lib: Option<String> = None;
    let ghost mut done: Seq<Seq<char>> = Seq::empty();
    let mut i: usize = 0;
    while i < n
        invariant
            i <= n,
            n == cs@.len(),
            cs@ == text@,
            words_from(cs@, 0) == done + words_from(cs@, i as int),
            text_option(headers) == flag_value(done, 'I'),
            text_option(lib) == flag_value(done, 'L'),
        decreases n - i,
    {
        let mut s = i;
        while s < n && is_whitespace(cs[s])
            invariant
                i <= s <= n,
                n == cs@.len(),
                word_start(cs@, s as int) == word_start(cs@, i as int),
            decreases n - s,
        {
            s += 1;
        }
        if s == n {
            assert(words_from(cs@, i as int) =~= Seq::<Seq<char>>::empty());
            assert(words_from(cs@, n as int) =~= Seq::<Seq<char>>::empty());
            i = n;
        } else {
            let mut e = s;
            while e < n && !is_whitespace(cs[e])
                invariant
                    s <= e <= n,
                    n == cs@.len(),
                    word_end(cs@, e as int) == word_end(cs@, s as int),
                decreases n - e,
            {
                e += 1;
            }
            let ghost w = cs@.subrange(s as int, e as int);
            if e - s >= 2 && cs[s] == '-' {
                if cs[s + 1] == 'I' {
                    headers = Some(string_from_chars(&cs, s + 2, e));
                } else if cs[s + 1] == 'L' {
                    lib = Some(string_from_chars(&cs, s + 2, e));
                }
            }
            proof {
                assert(words_from(cs@, i as int) == seq![w] + words_from(cs@, e as int));
                assert(done.push(w).drop_last() =~= done);
                if w.len() >= 2 {
                    assert(w.subrange(2, w.len() as int) =~= cs@.subrange(s + 2, e as int));
                }
                assert(done + words_from(cs@, i as int) =~= done.push(w) + words_from(cs@, e as int));
                done = done.push(w);
            }
            i = e;
        }
    }
    proof {
        assert(words_from(cs@, n as int) =~= Seq::<Seq<char>>::empty());
        assert(done + Seq::<Seq<char>>::empty() =~= done);
    }
    match (headers, lib) {
        (Some(headers), Some(lib)) => Some((headers, lib)),
        _ => None,
    }
}

} // verus!

verus! {

/// A place to search that is there only when its setting is.
pub open spec fn optional_root(o: Option<Seq<char>>) -> Seq<Seq<char>> {
    match o {
        Some(p) => seq![p],
        None => Seq::empty(),
    }
}

/// `part` under a directory that is there only when its setting is.
pub open spec fn joined_root(o: Option<Seq<char>>, part: Seq<char>) -> Seq<Seq<char>> {
    match o {
        Some(p) => seq![crate::install::path_join(p, part)],
        None => Seq::empty(),
    }
}

/// The places searched for the runtime, in order: the `CHECKBE_RUNTIME` setting;
/// `runtime` beside the source file and in the current directory;
/// `.local/share/checkbe/runtime` and `.checkbe/runtime` in the home directory;
/// the two fixed system places; and `runtime` beside the executable and in the
/// directory above it.
pub open spec fn runtime_candidate_paths(
    env_runtime: Option<Seq<char>>,
    source_dir: Option<Seq<char>>,
    current_dir: Option<Seq<char>>,
    home: Option<Seq<char>>,
    exe_dir: Option<Seq<char>>,
    exe_parent: Option<Seq<char>>,
) -> Seq<Seq<char>> {
    optional_root(env_runtime) + joined_root(source_dir, "runtime"@) + joined_root(
        current_dir,
        "runtime"@,
    ) + joined_root(home, ".local/share/checkbe/runtime"@) + joined_root(home, ".checkbe/runtime"@)
        + seq!["/usr/local/lib/checkbe/runtime"@, "/opt/homebrew/lib/checkbe/runtime"@] + joined_root(
        exe_dir,
        "runtime"@,
    ) + if exe_dir is Some {
        joined_root(exe_parent, "runtime"@)
    } else {
        Seq::empty()
    }
}

fn push_root(all: &mut Vec<String>, root: String)
    ensures
        string_views(final(all)@) == string_views(old(all)@).push(root@),
{
    all.push(root);
    assert(string_views(all@) =~= string_views(old(all)@).push(root@));
}

fn push_joined_root(all: &mut Vec<String>, dir: &Option<String>, part: &str)
    ensures
        string_views(final(all)@) == string_views(old(all)@) + joined_root(text_option(*dir), part@),
{
    match dir {
        Some(d) => {
            let joined = crate::install::join_path(d.as_str(), part);
            push_root(all, joined);
            assert(string_views(old(all)@).push(joined@) =~= string_views(old(all)@) + seq![joined@]);
        },
        None => {
            assert(string_views(old(all)@) + Seq::<Seq<char>>::empty() =~= string_views(old(all)@));
        },
    }
}

/// The places to look for the runtime, in the order searched and without a
/// place that an earlier one already names. The settings are those of the
/// environment: `CHECKBE_RUNTIME`, the source file's directory, the current
/// directory, `HOME`, and the executable's directory and the one above it.
pub fn runtime_root_candidates(
    env_runtime: Option<String>,
    source_dir: Option<String>,
    current_dir: Option<String>,
    home: Option<String>,
    exe_dir: Option<String>,
    exe_parent: Option<String>,
) -> (roots: Vec<String>)
    ensures
        string_views(roots@) == unique_paths(
            runtime_candidate_paths(
                text_option(env_runtime),
                text_option(source_dir),
                text_option(current_dir),
                text_option(home),
                text_option(exe_dir),
                text_option(exe_parent),
            ),
        ),
{
    let mut all: Vec<String> = Vec::new();
    assert(string_views(all@) =~= Seq::<Seq<char>>::empty());
    let has_exe_dir = exe_dir.is_some();
    match env_runtime {
        Some(r) => {
            push_root(&mut all, r);
        },
        None => {},
    }
    let ghost s1 = string_views(all@);
    assert(s1 =~= optional_root(text_option(env_runtime)));
    push_joined_root(&mut all, &source_dir, "runtime");
    push_joined_root(&mut all, &current_dir, "runtime");
    push_joined_root(&mut all, &home, ".local/share/checkbe/runtime");
    push_joined_root(&mut all, &home, ".checkbe/runtime");
    let ghost s2 = string_views(all@);
    push_root(&mut all, string_of("/usr/local/lib/checkbe/runtime"));
    push_root(&mut all, string_of("/opt/homebrew/lib/checkbe/runtime"));
    assert(string_views(all@) =~= s2 + seq!["/usr/local/lib/checkbe/runtime"@, "/opt/homebrew/lib/checkbe/runtime"@]);
    push_joined_root(&mut all, &exe_dir, "runtime");
    let ghost s3 = string_views(all@);
    if has_exe_dir {
        push_joined_root(&mut all, &exe_parent, "runtime");
    } else {
        assert(s3 + Seq::<Seq<char>>::empty() =~= s3);
    }
    assert(string_views(all@) =~= runtime_candidate_paths(
        text_option(env_runtime),
        text_option(source_dir),
        text_option(current_dir),
        text_option(home),
        text_option(exe_dir),
        text_option(exe_parent),
    ));
    dedup_paths(all)
}

/// The garbage collector's header and library directories, in the order tried:
/// the `CHECKBE_GC_INCLUDE` and `CHECKBE_GC_LIB` settings when both are given;
/// else the `-I` and `-L` directories of `pkg-config`'s output, when it ran and
/// names both; else the Homebrew directories, when both exist; else an error.
pub open spec fn gc_config_choice(
    env_include: Option<Seq<char>>,
    env_lib: Option<Seq<char>>,
    pkg_config: Option<Seq<char>>,
    brew_include: bool,
    brew_lib: bool,
) -> Result<(Seq<char>, Seq<char>), Seq<char>> {
    if env_include is Some && env_lib is Some {
        Ok((env_include->0, env_lib->0))
    } else if pkg_config is Some && pkg_config_dirs(pkg_config->0) is Some {
        Ok(pkg_config_dirs(pkg_config->0)->0)
    } else if brew_include && brew_lib {
        Ok((HOMEBREW_GC_INCLUDE@, HOMEBREW_GC_LIB@))
    } else {
        Err(
            "Could not detect Boehm GC. Install bdw-gc or set CHECKBE_GC_INCLUDE/CHECKBE_GC_LIB"@,
        )
    }
}

/// Where Homebrew puts the garbage collector's headers.
pub const HOMEBREW_GC_INCLUDE: &'static str = "/opt/homebrew/opt/bdw-gc/include";

/// Where Homebrew puts the garbage collector's library.
pub const HOMEBREW_GC_LIB: &'static str = "/opt/homebrew/opt/bdw-gc/lib";

/// Chooses the garbage collector's directories from what was found: the two
/// settings, `pkg-config`'s output when it ran, and whether the Homebrew
/// directories exist.
pub fn choose_gc_config(
    env_include: Option<String>,
    env_lib: Option<String>,
    pkg_config: Option<String>,
    brew_include: bool,
    brew_lib: bool,
) -> (r: Result<(String, String), String>)
    ensures
        match r {
            Ok((headers, lib)) => gc_config_choice(
                text_option(env_include),
                text_option(env_lib),
                text_option(pkg_config),
                brew_include,
                brew_lib,
            ) == Ok::<(Seq<char>, Seq<char>), Seq<char>>((headers@, lib@)),
            Err(m) => gc_config_choice(
                text_option(env_include),
                text_option(env_lib),
                text_option(pkg_config),
                brew_include,
                brew_lib,
            ) == Err::<(Seq<char>, Seq<char>), Seq<char>>(m@),
        },
{
    if env_include.is_some() && env_lib.is_some() {
        match (env_include, env_lib) {
            (Some(headers), Some(lib)) => {
                return Ok((headers, lib));
            },
            _ => {},
        }
    }
    let from_pkg_config = match &pkg_config {
        Some(text) => gc_dirs_from_pkg_config(text.as_str()),
        None => None,
    };
    match from_pkg_config {
        Some(dirs) => Ok(dirs),
        None => {
            if brew_include && brew_lib {
                Ok((string_of(HOMEBREW_GC_INCLUDE), string_of(HOMEBREW_GC_LIB)))
            } else {
                Err(
                    string_of(
                        "Could not detect Boehm GC. Install bdw-gc or set CHECKBE_GC_INCLUDE/CHECKBE_GC_LIB",
                    ),
                )
            }
        },
    }
}

} // verus!
