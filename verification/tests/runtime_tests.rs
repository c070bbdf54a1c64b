use checkbe::install::install_paths;
use checkbe::module_system::{LoadedModule, ModuleRegistry, ModuleSpec};
use checkbe::runtime::{
    archive_static_library, choose_gc_config, compile_c_file, dedup_paths, find_module_descriptor,
    gc_dirs_from_pkg_config, link_binary, runtime_root_candidates,
    pick_runtime_root, plan_module_libraries, source_to_object_name, RuntimeArtifacts,
};

fn strings(items: &[&str]) -> Vec<String> {
    items.iter().map(|s| s.to_string()).collect()
}

#[test]
fn link_command_lists_objects_libraries_and_gc() {
    let artifacts = RuntimeArtifacts {
        core_object: "/tmp/b/runtime_core.o".to_string(),
        module_libraries: strings(&["/tmp/l/libbridge.a"]),
        gc_lib_dir: "/opt/gc/lib".to_string(),
    };
    let command = link_binary("/tmp/p/program.o", "hello", &artifacts);
    assert_eq!(command.program, "clang");
    assert_eq!(
        command.args,
        strings(&[
            "/tmp/p/program.o",
            "/tmp/b/runtime_core.o",
            "/tmp/l/libbridge.a",
            "-L/opt/gc/lib",
            "-lgc",
            "-lm",
            "-Wl,-rpath,/opt/gc/lib",
            "-o",
            "hello",
        ])
    );
}

#[test]
fn compile_command_adds_include_dir() {
    let command = compile_c_file("core/runtime.c", "build/runtime_core.o", Some("/opt/gc/include"));
    assert_eq!(command.program, "clang");
    assert_eq!(
        command.args,
        strings(&["-c", "core/runtime.c", "-o", "build/runtime_core.o", "-std=c11", "-I/opt/gc/include"])
    );
    let plain = compile_c_file("a.c", "a.o", None);
    assert_eq!(plain.args, strings(&["-c", "a.c", "-o", "a.o", "-std=c11"]));
}

#[test]
fn archive_command_lists_objects() {
    let command = archive_static_library("lib/libm.a", &strings(&["a.o", "b.o"]));
    assert_eq!(command.program, "ar");
    assert_eq!(command.args, strings(&["rcs", "lib/libm.a", "a.o", "b.o"]));
}

#[test]
fn object_names_follow_stems() {
    assert_eq!(source_to_object_name("src/bridge.c"), "bridge.o");
    assert_eq!(source_to_object_name("archive.tar.c"), "archive.tar.o");
    assert_eq!(source_to_object_name(""), "module.o");
}

#[test]
fn dedup_keeps_first_of_equal_paths() {
    let unique = dedup_paths(strings(&["/a/runtime", "/b", "/a/runtime/", "/a//runtime", "/c"]));
    assert_eq!(unique, strings(&["/a/runtime", "/b", "/c"]));
}

#[test]
fn first_root_with_core_wins() {
    let roots = strings(&["/x", "/y", "/z"]);
    assert_eq!(pick_runtime_root(&roots, &[false, true, true]), Some("/y".to_string()));
    assert_eq!(pick_runtime_root(&roots, &[false, false, false]), None);
    assert_eq!(
        find_module_descriptor(&roots, &[true, false, false]),
        Some("/x".to_string())
    );
}

#[test]
fn libraries_are_planned_once_in_name_order() {
    let mut registry = ModuleRegistry::new();
    let module = |name: &str, library: &str, sources: &[&str]| LoadedModule {
        spec: ModuleSpec {
            name: name.to_string(),
            library: library.to_string(),
            native_sources: strings(sources),
            functions: vec![],
        },
        root_dir: format!("modules/{}", name),
    };
    registry.insert("Zed".to_string(), module("Zed", "shared", &["z.c"]));
    registry.insert("Alpha".to_string(), module("Alpha", "shared", &["a/alpha.c", "beta.c"]));
    registry.insert("Mid".to_string(), module("Mid", "mid", &[]));
    let plan = plan_module_libraries(&registry);
    assert_eq!(plan.len(), 2);
    assert_eq!(plan[0].module_name, "Alpha");
    assert_eq!(plan[0].library_name, "shared");
    assert_eq!(plan[0].object_names, strings(&["alpha.o", "beta.o"]));
    assert_eq!(plan[1].module_name, "Mid");
    assert!(plan[1].native_sources.is_empty());
}

#[test]
fn install_layout_under_prefix() {
    let result = install_paths("/usr/local");
    assert_eq!(result.binary_path, "/usr/local/bin/checkbe");
    assert_eq!(result.runtime_root, "/usr/local/lib/checkbe/runtime");
}

#[test]
fn install_layout_under_prefix_with_trailing_slash() {
    let result = install_paths("/opt/");
    assert_eq!(result.binary_path, "/opt/bin/checkbe");
    assert_eq!(result.runtime_root, "/opt/lib/checkbe/runtime");
}

#[test]
fn pkg_config_output_names_gc_directories() {
    let found = gc_dirs_from_pkg_config("-I/usr/include/gc -I/opt/gc/include\n -L/opt/gc/lib -lgc\n");
    assert_eq!(found, Some(("/opt/gc/include".to_string(), "/opt/gc/lib".to_string())));
}

#[test]
fn pkg_config_output_without_library_dir_is_refused() {
    assert_eq!(gc_dirs_from_pkg_config("-I/usr/include/gc -lgc"), None);
    assert_eq!(gc_dirs_from_pkg_config(""), None);
}

fn some(s: &str) -> Option<String> {
    Some(s.to_string())
}

#[test]
fn runtime_roots_follow_the_search_order() {
    let roots = runtime_root_candidates(
        some("/env/runtime"),
        some("/src"),
        some("/work"),
        some("/home/u"),
        some("/opt/tool/bin"),
        some("/opt/tool"),
    );
    assert_eq!(
        roots,
        strings(&[
            "/env/runtime",
            "/src/runtime",
            "/work/runtime",
            "/home/u/.local/share/checkbe/runtime",
            "/home/u/.checkbe/runtime",
            "/usr/local/lib/checkbe/runtime",
            "/opt/homebrew/lib/checkbe/runtime",
            "/opt/tool/bin/runtime",
            "/opt/tool/runtime",
        ])
    );
}

#[test]
fn runtime_roots_skip_missing_settings_and_repeats() {
    let roots = runtime_root_candidates(None, some("/work"), some("/work"), None, None, some("/ignored"));
    assert_eq!(
        roots,
        strings(&["/work/runtime", "/usr/local/lib/checkbe/runtime", "/opt/homebrew/lib/checkbe/runtime"])
    );
}

#[test]
fn gc_settings_come_first() {
    let r = choose_gc_config(some("/inc"), some("/lib"), some("-I/p/include -L/p/lib -lgc"), true, true);
    assert_eq!(r, Ok(("/inc".to_string(), "/lib".to_string())));
}

#[test]
fn gc_from_pkg_config_then_homebrew() {
    let r = choose_gc_config(some("/inc"), None, some("-I/p/include -L/p/lib -lgc"), true, true);
    assert_eq!(r, Ok(("/p/include".to_string(), "/p/lib".to_string())));
    let r = choose_gc_config(None, None, some("-lgc"), true, true);
    assert_eq!(r, Ok(("/opt/homebrew/opt/bdw-gc/include".to_string(), "/opt/homebrew/opt/bdw-gc/lib".to_string())));
}

#[test]
fn gc_not_found() {
    let r = choose_gc_config(None, None, None, true, false);
    assert_eq!(
        r,
        Err("Could not detect Boehm GC. Install bdw-gc or set CHECKBE_GC_INCLUDE/CHECKBE_GC_LIB".to_string())
    );
}
