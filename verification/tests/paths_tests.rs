//! The lexical path operations on concrete values.

use find_cargo_toml::LexPath;
use find_cargo_toml::find;
use find_cargo_toml::normalize_path;

#[test]
fn parse_and_render_round_trip() {
    assert_eq!(LexPath::parse("/x/y").render(), "/x/y");
    assert_eq!(LexPath::parse("x/y").render(), "x/y");
    assert_eq!(LexPath::parse("/").render(), "/");
    assert_eq!(LexPath::parse("").render(), "");
}

#[test]
fn duplicate_separators_collapse() {
    assert_eq!(LexPath::parse("//x///y/").render(), "/x/y");
    assert_eq!(normalize_path("a//b"), "a/b");
}

#[test]
fn dot_components_are_dropped() {
    assert_eq!(normalize_path("/a/./b/."), "/a/b");
    assert_eq!(normalize_path("./a"), "a");
}

#[test]
fn dotdot_pops_the_preceding_component() {
    assert_eq!(normalize_path("/a/b/../c"), "/a/c");
    assert_eq!(normalize_path("a/b/.."), "a");
}

#[test]
fn dotdot_at_an_absolute_root_is_dropped() {
    assert_eq!(normalize_path("/.."), "/");
    assert_eq!(normalize_path("/../a"), "/a");
}

#[test]
fn leading_dotdot_of_a_relative_path_is_kept() {
    assert_eq!(normalize_path("../../a"), "../../a");
    assert_eq!(normalize_path("a/../.."), "..");
}

#[test]
fn parent_drops_one_component() {
    assert_eq!(LexPath::parse("/x/y").parent().unwrap().render(), "/x");
    assert_eq!(LexPath::parse("/x").parent().unwrap().render(), "/");
    assert_eq!(LexPath::parse("a").parent().unwrap().render(), "");
    assert!(LexPath::parse("/").parent().is_none());
    assert!(LexPath::parse("").parent().is_none());
}

#[test]
fn join_keeps_an_absolute_input() {
    let base = LexPath::parse("/tmp");
    assert_eq!(base.join(&LexPath::parse("/opt/x")).render(), "/opt/x");
    assert_eq!(base.join(&LexPath::parse("opt/x")).render(), "/tmp/opt/x");
}

#[test]
fn child_appends_one_component() {
    assert_eq!(LexPath::parse("/a").child("f").render(), "/a/f");
    assert_eq!(LexPath::parse("").child("f").render(), "f");
    assert_eq!(LexPath::parse("/").child("f").render(), "/f");
}

#[test]
fn resolving_a_resolved_path_changes_nothing() {
    // the resolved starting path is the pending probe before the walk
    let it1 = find("f/./g", Some("/tmp"), None);
    let start1 = it1.pending_probe().unwrap();
    assert_eq!(start1, "/tmp/f/g");
    let it2 = find(&start1, Some("/somewhere/else"), None);
    let start2 = it2.pending_probe().unwrap();
    assert_eq!(start1, start2);
}
