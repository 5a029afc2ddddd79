use std::path::PathBuf;
use unescape_newlines::paths::{derive_out_path, out_path, Args};

#[test]
fn check_path_file_name() {
    let mut name = PathBuf::from("../some.txt");
    name.set_file_name("some copy.txt");
    assert_eq!(name, PathBuf::from("../some copy.txt"));
}

#[test]
fn derived_path_keeps_directory_and_extension() {
    assert_eq!(derive_out_path("a/b/notes.txt"), Some("a/b/notes - copy.txt".to_string()));
}

#[test]
fn derived_path_without_extension() {
    assert_eq!(derive_out_path("a/b/README"), Some("a/b/README - copy".to_string()));
}

#[test]
fn derived_path_plain_file_name() {
    assert_eq!(derive_out_path("notes.txt"), Some("notes - copy.txt".to_string()));
}

#[test]
fn derived_path_uses_last_dot_only() {
    assert_eq!(derive_out_path("dir/a.b.txt"), Some("dir/a.b - copy.txt".to_string()));
}

#[test]
fn derived_path_hidden_file_has_no_extension() {
    assert_eq!(derive_out_path("home/.bashrc"), Some("home/.bashrc - copy".to_string()));
}

#[test]
fn derived_path_trailing_dot_drops_empty_extension() {
    assert_eq!(derive_out_path("foo."), Some("foo - copy".to_string()));
}

#[test]
fn derived_path_relative_parent() {
    assert_eq!(derive_out_path("../some.txt"), Some("../some - copy.txt".to_string()));
}

#[test]
fn derived_path_non_ascii_name() {
    assert_eq!(derive_out_path("d/résumé.md"), Some("d/résumé - copy.md".to_string()));
}

#[test]
fn no_derived_path_without_file_name() {
    assert_eq!(derive_out_path("a/b/"), None);
    assert_eq!(derive_out_path(""), None);
    assert_eq!(derive_out_path("a/."), None);
    assert_eq!(derive_out_path(".."), None);
}

#[test]
fn explicit_output_path_overrides_derivation() {
    let args = Args {
        in_file: "a/b/notes.txt".to_string(),
        out_file: Some("elsewhere/out.txt".to_string()),
    };
    assert_eq!(out_path(&args), Some("elsewhere/out.txt".to_string()));
}

#[test]
fn explicit_output_path_used_even_without_file_name_in_input() {
    let args = Args { in_file: "a/b/".to_string(), out_file: Some("x".to_string()) };
    assert_eq!(out_path(&args), Some("x".to_string()));
}

#[test]
fn absent_output_path_is_derived() {
    let args = Args { in_file: "a/b/notes.txt".to_string(), out_file: None };
    assert_eq!(out_path(&args), Some("a/b/notes - copy.txt".to_string()));
}
