use olang::errors::{InterpreterError, IntuitiveErrorFormatter};
use olang::resolution::{
    dependency_candidate_files, directory_candidate_files, join_path, module_not_found_error,
    package_of, split_on_dots, stdlib_module_path,
};

fn strings(v: &[&str]) -> Vec<String> {
    v.iter().map(|s| s.to_string()).collect()
}

#[test]
fn paths_join_like_pathbuf() {
    assert_eq!(join_path("a", "b.ol"), "a/b.ol");
    assert_eq!(join_path("a/", "b.ol"), "a/b.ol");
    assert_eq!(join_path("", "b.ol"), "b.ol");
    assert_eq!(join_path("a", "/abs"), "/abs");
}

#[test]
fn dots_split_like_str_split() {
    assert_eq!(split_on_dots("a.b.c"), strings(&["a", "b", "c"]));
    assert_eq!(split_on_dots("a..b"), strings(&["a", "", "b"]));
    assert_eq!(split_on_dots(""), strings(&[""]));
    assert_eq!(split_on_dots("a."), strings(&["a", ""]));
    assert_eq!(package_of("foo.bar"), "foo");
}

#[test]
fn package_candidates() {
    assert_eq!(
        dependency_candidate_files("deps/foo", "foo"),
        strings(&["deps/foo/index.ol", "deps/foo/mod.ol", "deps/foo/foo.ol", "deps/foo/src/index.ol"])
    );
    assert_eq!(
        dependency_candidate_files("deps/foo", "foo.bar.baz"),
        strings(&[
            "deps/foo/bar/baz.ol",
            "deps/foo/bar/baz/index.ol",
            "deps/foo/bar/baz/mod.ol",
            "deps/foo/src/bar/baz.ol"
        ])
    );
}

#[test]
fn directory_candidates_in_order() {
    assert_eq!(
        directory_candidate_files("proj", "util.strings", false),
        strings(&[
            "proj/util/strings.ol",
            "proj/util/index.ol",
            "proj/util/mod.ol",
            "proj/src/util/strings.ol",
            "proj/src/util/mod.ol",
            "proj/src/util/index.ol"
        ])
    );
    assert_eq!(
        directory_candidate_files("proj", "utils", true),
        strings(&["proj/utils.ol", "proj/utils/index.ol", "proj/utils/mod.ol", "proj/src/utils.ol"])
    );
    assert_eq!(
        directory_candidate_files("proj", "utils", false),
        strings(&["proj/utils.ol", "proj/src/utils.ol"])
    );
}

#[test]
fn stdlib_paths() {
    let names = strings(&["math", "io"]);
    assert_eq!(stdlib_module_path("math", &names).ok(), Some("__stdlib__/math".to_string()));
    assert_eq!(stdlib_module_path("std.io", &names).ok(), Some("__stdlib__/io".to_string()));
    match stdlib_module_path("net", &names) {
        Err(InterpreterError::RuntimeError { message }) => {
            assert_eq!(message, "Not a standard library module: net")
        }
        _ => panic!("expected an error"),
    }
}

#[test]
fn not_found_errors_list_what_exists() {
    let f = IntuitiveErrorFormatter::default();
    let e = module_not_found_error(
        &f,
        "maths",
        Some("/work"),
        None,
        &strings(&["math"]),
        &strings(&["main.ol", "helpers.ol", "notes.txt", "x.ol.ol"]),
    );
    match e {
        InterpreterError::ModuleNotFound {
            module_name,
            searched_paths,
            available_modules,
            suggestions,
        } => {
            assert_eq!(module_name, "maths");
            assert_eq!(
                searched_paths,
                strings(&["Same directory: /work", "Standard library modules"])
            );
            assert_eq!(available_modules, strings(&["math", "helpers", "x"]));
            assert_eq!(suggestions, strings(&["math"]));
        }
        _ => panic!("expected a module-not-found error"),
    }
}
