use vstd::prelude::*;

use crate::ast::{type_of_name, ImportDecl, ValueType};
use crate::diagnostics::{error_at, error_count, extends, warning_at, Diagnostics};
use crate::names::{lookup, NameMap};
use crate::text::{push_str, str_eq, string_of};

verus! {

/// What a module descriptor (`module.toml`) declares.
#[derive(Debug)]
pub struct ModuleSpec {
    pub name: String,
    pub library: String,
    pub native_sources: Vec<String>,
    pub functions: Vec<ModuleFunctionSpec>,
}

#[derive(Debug)]
pub struct ModuleFunctionSpec {
    pub name: String,
    pub overloads: Vec<ModuleFunctionOverloadSpec>,
}

#[derive(Debug)]
pub struct ModuleFunctionOverloadSpec {
    pub args: Vec<String>,
    pub return_type: String,
    pub symbol: String,
}

#[derive(Debug)]
pub struct LoadedModule {
    pub spec: ModuleSpec,
    pub root_dir: String,
}

#[derive(Debug)]
pub struct ResolvedExternalCall {
    pub symbol: String,
    pub argument_types: Vec<ValueType>,
    pub return_type: ValueType,
}

/// The modules a program imports, by name.
#[derive(Debug)]
pub struct ModuleRegistry {
    modules: NameMap<LoadedModule>,
}

/// The types that a list of type names denotes, when every name is known.
pub open spec fn parse_type_names(names: Seq<String>) -> Option<Seq<ValueType>>
    decreases names.len(),
{
    if names.len() == 0 {
        Some(Seq::empty())
    } else {
        match (parse_type_names(names.drop_last()), type_of_name(names.last()@)) {
            (Some(ts), Some(t)) => Some(ts.push(t)),
            _ => None,
        }
    }
}

/// The first function of the given name.
pub open spec fn find_function(fs: Seq<ModuleFunctionSpec>, name: Seq<char>) -> Option<
    ModuleFunctionSpec,
>
    decreases fs.len(),
{
    if fs.len() == 0 {
        None
    } else if fs[0].name@ == name {
        Some(fs[0])
    } else {
        find_function(fs.drop_first(), name)
    }
}

/// The call that the overloads resolve to for the argument types: the first
/// overload whose argument names all denote types equal to `args`; its symbol,
/// argument types and return type. Resolution gives nothing when that overload's
/// return type is not a known type name.
pub open spec fn resolve_overloads(ovs: Seq<ModuleFunctionOverloadSpec>, args: Seq<ValueType>) -> Option<
    (Seq<char>, Seq<ValueType>, ValueType),
>
    decreases ovs.len(),
{
    if ovs.len() == 0 {
        None
    } else {
        let o = ovs[0];
        match parse_type_names(o.args@) {
            Some(ts) => if ts == args {
                match type_of_name(o.return_type@) {
                    Some(r) => Some((o.symbol@, ts, r)),
                    None => None,
                }
            } else {
                resolve_overloads(ovs.drop_first(), args)
            },
            None => resolve_overloads(ovs.drop_first(), args),
        }
    }
}

/// Resolution picks the first overload whose parameter types are the argument
/// types, with its symbol and return type.
pub proof fn lemma_resolve_first_match(ovs: Seq<ModuleFunctionOverloadSpec>, args: Seq<ValueType>, k: int, ret: ValueType)
    requires
        0 <= k < ovs.len(),
        parse_type_names(ovs[k].args@) == Some(args),
        forall|j: int| 0 <= j < k ==> parse_type_names(#[trigger] ovs[j].args@) != Some(args),
        type_of_name(ovs[k].return_type@) == Some(ret),
    ensures
        resolve_overloads(ovs, args) == Some((ovs[k].symbol@, args, ret)),
    decreases k,
{
    if k > 0 {
        let rest = ovs.drop_first();
        assert forall|j: int| 0 <= j < k - 1 implies parse_type_names(#[trigger] rest[j].args@) != Some(args) by {
            assert(rest[j] == ovs[j + 1]);
        }
        lemma_resolve_first_match(rest, args, k - 1, ret);
        assert(rest[k - 1] == ovs[k]);
    }
}

/// What resolution gives comes from an overload whose parameter types are
/// exactly the argument types.
pub proof fn lemma_resolved_overload_matches(ovs: Seq<ModuleFunctionOverloadSpec>, args: Seq<ValueType>)
    requires
        resolve_overloads(ovs, args) is Some,
    ensures
        exists|k: int| 0 <= k < ovs.len() && parse_type_names(#[trigger] ovs[k].args@) == Some(args)
            && resolve_overloads(ovs, args) == Some((ovs[k].symbol@, args, type_of_name(ovs[k].return_type@)->0)),
    decreases ovs.len(),
{
    if parse_type_names(ovs[0].args@) == Some(args) {
        assert(parse_type_names(ovs[0].args@) == Some(args));
    } else {
        let rest = ovs.drop_first();
        lemma_resolved_overload_matches(rest, args);
        let k = choose|k: int| 0 <= k < rest.len() && parse_type_names(#[trigger] rest[k].args@) == Some(args)
            && resolve_overloads(rest, args) == Some((rest[k].symbol@, args, type_of_name(rest[k].return_type@)->0));
        assert(rest[k] == ovs[k + 1]);
    }
}

/// `items` joined with `sep` between them.
pub open spec fn join(items: Seq<Seq<char>>, sep: Seq<char>) -> Seq<char>
    decreases items.len(),
{
    if items.len() == 0 {
        Seq::empty()
    } else if items.len() == 1 {
        items[0]
    } else {
        join(items.drop_last(), sep) + sep + items.last()
    }
}

pub open spec fn string_views(items: Seq<String>) -> Seq<Seq<char>> {
    items.map_values(|s: String| s@)
}

/// How an overload is shown: `name(arg, ...) -> return`.
pub open spec fn signature_text(name: Seq<char>, o: ModuleFunctionOverloadSpec) -> Seq<char> {
    name + "("@ + join(string_views(o.args@), ", "@) + ") -> "@ + o.return_type@
}

impl ModuleRegistry {
    /// The module registered under a name.
    pub closed spec fn module_spec(&self, name: Seq<char>) -> Option<LoadedModule> {
        self.modules.get_spec(name)
    }

    /// What a call of `module.function(args)` resolves to.
    pub open spec fn resolve_spec(&self, module: Seq<char>, function: Seq<char>, args: Seq<ValueType>) -> Option<
        (Seq<char>, Seq<ValueType>, ValueType),
    > {
        match self.module_spec(module) {
            Some(m) => match find_function(m.spec.functions@, function) {
                Some(f) => resolve_overloads(f.overloads@, args),
                None => None,
            },
            None => None,
        }
    }

    /// A registry without modules.
    pub fn new() -> (r: ModuleRegistry)
        ensures
            forall|k: Seq<char>| r.module_spec(k) is None,
    {
        ModuleRegistry { modules: NameMap::new() }
    }

    pub fn contains(&self, module_name: &str) -> (b: bool)
        ensures
            b == self.module_spec(module_name@) is Some,
    {
        self.modules.contains_key(module_name)
    }

    pub fn module(&self, module_name: &str) -> (r: Option<&LoadedModule>)
        ensures
            match r {
                Some(m) => self.module_spec(module_name@) == Some(*m),
                None => self.module_spec(module_name@) is None,
            },
    {
        self.modules.get(module_name)
    }

    /// All registered modules, in the order they were registered.
    pub fn modules(&self) -> (r: &NameMap<LoadedModule>)
        ensures
            forall|k: Seq<char>| r.get_spec(k) == self.module_spec(k),
    {
        &self.modules
    }

    /// Registers a module under a name that is not registered yet.
    pub fn insert(&mut self, name: String, module: LoadedModule)
        requires
            old(self).module_spec(name@) is None,
        ensures
            forall|k: Seq<char>|
                #[trigger] final(self).module_spec(k) == if k == name@ {
                    Some(module)
                } else {
                    old(self).module_spec(k)
                },
    {
        self.modules.insert(name, module);
    }

    /// Resolves a call of a module function against the overloads its descriptor
    /// declares.
    pub fn resolve_call(&self, module_name: &str, function_name: &str, argument_types: &[ValueType]) -> (r:
        Option<ResolvedExternalCall>)
        ensures
            match r {
                Some(c) => self.resolve_spec(module_name@, function_name@, argument_types@) == Some(
                    (c.symbol@, c.argument_types@, c.return_type),
                ),
                None => self.resolve_spec(module_name@, function_name@, argument_types@) is None,
            },
    {
        let module = match self.modules.get(module_name) {
            Some(m) => m,
            None => {
                return None;
            },
        };
        let function = match find_function_exec(&module.spec.functions, function_name) {
            Some(f) => f,
            None => {
                return None;
            },
        };
        let overloads = &function.overloads;
        let mut i: usize = 0;
        assert(overloads@.skip(0) =~= overloads@);
        assert(self.resolve_spec(module_name@, function_name@, argument_types@) == resolve_overloads(
            overloads@,
            argument_types@,
        ));
        while i < overloads.len()
            invariant
                i <= overloads@.len(),
                self.resolve_spec(module_name@, function_name@, argument_types@) == resolve_overloads(
                    overloads@,
                    argument_types@,
                ),
                resolve_overloads(overloads@, argument_types@) == resolve_overloads(
                    overloads@.skip(i as int),
                    argument_types@,
                ),
            decreases overloads.len() - i,
        {
            let overload = &overloads[i];
            proof {
                assert(overloads@.skip(i as int)[0] == overloads@[i as int]);
                assert(overloads@.skip(i as int).drop_first() =~= overloads@.skip(i + 1));
            }
            match parse_type_names_exec(&overload.args) {
                Some(parsed_args) => {
                    if types_equal(&parsed_args, argument_types) {
                        return match ValueType::from_name(overload.return_type.as_str()) {
                            Some(return_type) => Some(
                                ResolvedExternalCall {
                                    symbol: overload.symbol.clone(),
                                    argument_types: parsed_args,
                                    return_type,
                                },
                            ),
                            None => None,
                        };
                    }
                },
                None => {},
            }
            i += 1;
        }
        assert(overloads@.skip(i as int).len() == 0);
        None
    }

    /// The signatures a module function declares, as shown in error messages.
    pub fn expected_signatures(&self, module_name: &str, function_name: &str) -> (r: Vec<String>)
        ensures
            match self.module_spec(module_name@) {
                Some(m) => match find_function(m.spec.functions@, function_name@) {
                    Some(f) => r@.len() == f.overloads@.len() && forall|i: int|
                        0 <= i < r@.len() ==> #[trigger] r@[i]@ == signature_text(
                            function_name@,
                            f.overloads@[i],
                        ),
                    None => r@.len() == 0,
                },
                None => r@.len() == 0,
            },
    {
        let mut signatures: Vec<String> = Vec::new();
        let module = match self.modules.get(module_name) {
            Some(m) => m,
            None => {
                return signatures;
            },
        };
        let function = match find_function_exec(&module.spec.functions, function_name) {
            Some(f) => f,
            None => {
                return signatures;
            },
        };
        let mut i: usize = 0;
        while i < function.overloads.len()
            invariant
                i <= function.overloads@.len(),
                signatures@.len() == i,
                forall|k: int|
                    0 <= k < i ==> #[trigger] signatures@[k]@ == signature_text(
                        function_name@,
                        function.overloads@[k],
                    ),
            decreases function.overloads.len() - i,
        {
            let overload = &function.overloads[i];
            let mut text = string_of(function_name);
            push_str(&mut text, "(");
            let args = join_strings(&overload.args, ", ");
            push_str(&mut text, args.as_str());
            push_str(&mut text, ") -> ");
            push_str(&mut text, overload.return_type.as_str());
            signatures.push(text);
            i += 1;
        }
        signatures
    }
}

fn find_function_exec<'a>(fs: &'a Vec<ModuleFunctionSpec>, name: &str) -> (r: Option<
    &'a ModuleFunctionSpec,
>)
    ensures
        match r {
            Some(f) => find_function(fs@, name@) == Some(*f),
            None => find_function(fs@, name@) is None,
        },
{
    let mut i: usize = 0;
    assert(fs@.skip(0) =~= fs@);
    while i < fs.len()
        invariant
            i <= fs@.len(),
            find_function(fs@, name@) == find_function(fs@.skip(i as int), name@),
        decreases fs.len() - i,
    {
        proof {
            assert(fs@.skip(i as int)[0] == fs@[i as int]);
            assert(fs@.skip(i as int).drop_first() =~= fs@.skip(i + 1));
        }
        if str_eq(fs[i].name.as_str(), name) {
            return Some(&fs[i]);
        }
        i += 1;
    }
    assert(fs@.skip(i as int).len() == 0);
    None
}

fn parse_type_names_exec(names: &Vec<String>) -> (r: Option<Vec<ValueType>>)
    ensures
        match r {
            Some(ts) => parse_type_names(names@) == Some(ts@),
            None => parse_type_names(names@) is None,
        },
{
    let mut out: Vec<ValueType> = Vec::new();
    let mut i: usize = 0;
    while i < names.len()
        invariant
            i <= names@.len(),
            parse_type_names(names@.take(i as int)) == Some(out@),
        decreases names.len() - i,
    {
        assert(names@.take(i + 1).drop_last() =~= names@.take(i as int));
        assert(names@.take(i + 1).last() == names@[i as int]);
        match ValueType::from_name(names[i].as_str()) {
            Some(t) => {
                out.push(t);
            },
            None => {
                proof {
                    lemma_parse_names_none(names@, i as int + 1);
                }
                return None;
            },
        }
        i += 1;
    }
    assert(names@.take(names@.len() as int) =~= names@);
    Some(out)
}

proof fn lemma_parse_names_none(names: Seq<String>, k: int)
    requires
        0 < k <= names.len(),
        parse_type_names(names.take(k)) is None,
    ensures
        parse_type_names(names) is None,
    decreases names.len() - k,
{
    if k < names.len() {
        assert(names.take(k + 1).drop_last() =~= names.take(k));
        lemma_parse_names_none(names, k + 1);
    } else {
        assert(names.take(k) =~= names);
    }
}

/// Whether two type lists are equal.
pub fn types_equal(a: &Vec<ValueType>, b: &[ValueType]) -> (r: bool)
    ensures
        r == (a@ == b@),
{
    if a.len() != b.len() {
        return false;
    }
    let mut i: usize = 0;
    while i < a.len()
        invariant
            a@.len() == b@.len(),
            i <= a@.len(),
            forall|k: int| 0 <= k < i ==> a@[k] == b@[k],
        decreases a.len() - i,
    {
        if !a[i].same(&b[i]) {
            return false;
        }
        i += 1;
    }
    assert(a@ =~= b@);
    true
}

/// The strings joined with `sep` between them.
pub fn join_strings(items: &Vec<String>, sep: &str) -> (r: String)
    ensures
        r@ == join(string_views(items@), sep@),
{
    let mut out = String::new();
    let mut i: usize = 0;
    while i < items.len()
        invariant
            i <= items@.len(),
            out@ == join(string_views(items@.take(i as int)), sep@),
        decreases items.len() - i,
    {
        let ghost prev = string_views(items@.take(i as int));
        let ghost next = string_views(items@.take(i + 1));
        assert(next.drop_last() =~= prev);
        assert(next.last() == items@[i as int]@);
        if i > 0 {
            push_str(&mut out, sep);
        } else {
            assert(out@ =~= Seq::<char>::empty());
        }
        push_str(&mut out, items[i].as_str());
        i += 1;
    }
    assert(items@.take(items@.len() as int) =~= items@);
    out
}

/// What looking for and reading an imported module's descriptor gave.
pub enum ModuleLookup {
    /// No search root holds a descriptor for the module.
    NotFound,
    /// The descriptor at `path` could not be read.
    Unreadable { path: String, error: String },
    /// The descriptor could not be parsed.
    Invalid { error: String },
    /// The descriptor at `path` was read; `root_dir` is its directory.
    Found { path: String, spec: ModuleSpec, root_dir: String },
}

/// Registers the modules of a program's imports, one import at a time: `begin`
/// says whether the import still needs its descriptor, and `finish` takes what
/// looking for it gave.
pub struct ImportLoader {
    registry: ModuleRegistry,
    seen: Vec<String>,
}

pub open spec fn seen_contains(seen: Seq<String>, name: Seq<char>) -> bool {
    exists|i: int| 0 <= i < seen.len() && seen[i]@ == name
}

impl ImportLoader {
    pub closed spec fn seen_names(&self) -> Seq<String> {
        self.seen@
    }

    pub closed spec fn registry_spec(&self) -> ModuleRegistry {
        self.registry
    }

    pub fn new() -> (l: ImportLoader)
        ensures
            l.seen_names().len() == 0,
            forall|k: Seq<char>| l.registry_spec().module_spec(k) is None,
    {
        ImportLoader { registry: ModuleRegistry::new(), seen: Vec::new() }
    }

    /// Starts an import. A module imported a second time gets a warning and needs
    /// nothing more; the result says whether its descriptor must be looked up.
    pub fn begin(&mut self, import: &ImportDecl, diagnostics: &mut Diagnostics) -> (needed: bool)
        ensures
            needed == !seen_contains(old(self).seen_names(), import.module@),
            needed ==> final(diagnostics)@ == old(diagnostics)@ && seen_contains(
                final(self).seen_names(),
                import.module@,
            ),
            !needed ==> final(diagnostics)@ == old(diagnostics)@.push(
                warning_at(
                    Some(import.span),
                    "Duplicate import of module '"@ + import.module@ + "'"@,
                ),
            ),
            final(self).registry_spec() == old(self).registry_spec(),
    {
        let mut i: usize = 0;
        while i < self.seen.len()
            invariant
                i <= self.seen@.len(),
                self.seen@ == old(self).seen@,
                self.registry == old(self).registry,
                diagnostics@ == old(diagnostics)@,
                forall|k: int| 0 <= k < i ==> self.seen@[k]@ != import.module@,
            decreases self.seen.len() - i,
        {
            if str_eq(self.seen[i].as_str(), import.module.as_str()) {
                assert(seen_contains(old(self).seen@, import.module@));
                let mut message = string_of("Duplicate import of module '");
                push_str(&mut message, import.module.as_str());
                push_str(&mut message, "'");
                diagnostics.warning(Some(import.span), message);
                return false;
            }
            i += 1;
        }
        self.seen.push(import.module.clone());
        assert(self.seen@[self.seen@.len() - 1]@ == import.module@);
        true
    }

    /// Finishes an import with what looking up its descriptor gave: an error for a
    /// missing, unreadable, malformed or misnamed descriptor; otherwise the module
    /// is registered under the imported name.
    pub fn finish(&mut self, import: &ImportDecl, found: ModuleLookup, diagnostics: &mut Diagnostics)
        ensures
            extends(old(diagnostics)@, final(diagnostics)@),
            final(self).seen_names() == old(self).seen_names(),
            match found {
                ModuleLookup::NotFound => final(diagnostics)@ == old(diagnostics)@.push(
                    error_at(
                        Some(import.span),
                        "Module '"@ + import.module@ + "' not found. Expected runtime/modules/"@
                            + import.module@ + "/module.toml"@,
                    ),
                ),
                ModuleLookup::Unreadable { path, error } => final(diagnostics)@
                    == old(diagnostics)@.push(
                    error_at(Some(import.span), "Failed to read "@ + path@ + ": "@ + error@),
                ),
                ModuleLookup::Invalid { error } => final(diagnostics)@ == old(diagnostics)@.push(
                    error_at(
                        Some(import.span),
                        "Invalid module.toml for '"@ + import.module@ + "': "@ + error@,
                    ),
                ),
                ModuleLookup::Found { path, spec, root_dir } => if spec.name@ != import.module@ {
                    final(diagnostics)@ == old(diagnostics)@.push(
                        error_at(
                            Some(import.span),
                            "Import '"@ + import.module@ + "' points to module '"@ + spec.name@
                                + "' in "@ + path@,
                        ),
                    )
                } else {
                    final(diagnostics)@ == old(diagnostics)@ && (old(self).registry_spec().module_spec(
                        import.module@,
                    ) is None ==> final(self).registry_spec().module_spec(import.module@) == Some(
                        LoadedModule { spec, root_dir },
                    ))
                },
            },
            forall|k: Seq<char>|
                k != import.module@ ==> #[trigger] final(self).registry_spec().module_spec(k)
                    == old(self).registry_spec().module_spec(k),
            old(self).registry_spec().module_spec(import.module@) is Some
                ==> final(self).registry_spec().module_spec(import.module@)
                == old(self).registry_spec().module_spec(import.module@),
            !(found matches ModuleLookup::Found { spec, .. } && spec.name@ == import.module@)
                ==> final(self).registry_spec() == old(self).registry_spec(),
    {
        match found {
            ModuleLookup::NotFound => {
                let mut message = string_of("Module '");
                push_str(&mut message, import.module.as_str());
                push_str(&mut message, "' not found. Expected runtime/modules/");
                push_str(&mut message, import.module.as_str());
                push_str(&mut message, "/module.toml");
                diagnostics.error(Some(import.span), message);
            },
            ModuleLookup::Unreadable { path, error } => {
                let mut message = string_of("Failed to read ");
                push_str(&mut message, path.as_str());
                push_str(&mut message, ": ");
                push_str(&mut message, error.as_str());
                diagnostics.error(Some(import.span), message);
            },
            ModuleLookup::Invalid { error } => {
                let mut message = string_of("Invalid module.toml for '");
                push_str(&mut message, import.module.as_str());
                push_str(&mut message, "': ");
                push_str(&mut message, error.as_str());
                diagnostics.error(Some(import.span), message);
            },
            ModuleLookup::Found { path, spec, root_dir } => {
                if !str_eq(spec.name.as_str(), import.module.as_str()) {
                    let mut message = string_of("Import '");
                    push_str(&mut message, import.module.as_str());
                    push_str(&mut message, "' points to module '");
                    push_str(&mut message, spec.name.as_str());
                    push_str(&mut message, "' in ");
                    push_str(&mut message, path.as_str());
                    diagnostics.error(Some(import.span), message);
                } else if !self.registry.contains(import.module.as_str()) {
                    self.registry.insert(import.module.clone(), LoadedModule { spec, root_dir });
                }
            },
        }
    }

    /// The registry of all modules registered so far.
    pub fn into_registry(self) -> (r: ModuleRegistry)
        ensures
            r == self.registry_spec(),
    {
        self.registry
    }
}

} // verus!
