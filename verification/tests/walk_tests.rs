//! End-to-end walks driven against a simulated filesystem: a list of the
//! paths that name regular files.

use find_cargo_toml::FindIter;
use find_cargo_toml::Step;
use find_cargo_toml::find;
use find_cargo_toml::find_from_current_dir;

/// Drive an iterator to the end, answering every probe from `files`, and
/// collect everything it yields.
fn run(mut it: FindIter, cwd: Option<&str>, files: &[&str]) -> Vec<String> {
    let mut out: Vec<String> = Vec::new();
    if it.needs_cwd() {
        it.supply_cwd(cwd);
    }
    loop {
        match it.pending_probe() {
            Some(p) => {
                let hit = files.iter().any(|f| *f == p.as_str());
                match it.advance(hit) {
                    Step::Yield(s) => out.push(s),
                    Step::Continue => {}
                    Step::Done => break,
                }
            }
            None => break,
        }
    }
    out
}

#[test]
fn empty_directory_yields_nothing() {
    let out = run(find("/tmp/a", None, None), Some("/ignored"), &[]);
    assert_eq!(out.len(), 0);
}

#[test]
fn direct_hit_is_yielded_alone() {
    let files = ["/tmp/b/Cargo.toml"];
    let out = run(find("/tmp/b", None, None), Some("/ignored"), &files);
    assert_eq!(out, vec!["/tmp/b/Cargo.toml".to_string()]);
}

#[test]
fn custom_file_name_is_respected() {
    let files = ["/tmp/c/MyManifest.toml"];
    let out = run(find("/tmp/c", None, Some("MyManifest.toml")), Some("/ignored"), &files);
    assert_eq!(out, vec!["/tmp/c/MyManifest.toml".to_string()]);
}

#[test]
fn ancestor_hit_is_found() {
    let files = ["/tmp/d/Cargo.toml"];
    let out = run(find("/tmp/d/sub", None, None), Some("/ignored"), &files);
    assert_eq!(out, vec!["/tmp/d/Cargo.toml".to_string()]);
}

#[test]
fn multiple_hits_come_nearest_first() {
    let files = ["/tmp/e/Cargo.toml", "/tmp/e/nested/Cargo.toml"];
    let out = run(find("/tmp/e/nested", None, None), Some("/ignored"), &files);
    assert_eq!(
        out,
        vec!["/tmp/e/nested/Cargo.toml".to_string(), "/tmp/e/Cargo.toml".to_string()],
    );
}

#[test]
fn relative_input_is_anchored_at_base() {
    let files = ["/tmp/f/Cargo.toml"];
    let out = run(find("f", Some("/tmp"), None), Some("/ignored"), &files);
    assert_eq!(out, vec!["/tmp/f/Cargo.toml".to_string()]);
}

#[test]
fn file_input_collapses_to_its_parent() {
    let files = ["/tmp/g/Cargo.toml"];
    let out = run(find("/tmp/g/Cargo.toml", None, None), Some("/ignored"), &files);
    assert_eq!(out, vec!["/tmp/g/Cargo.toml".to_string()]);
}

#[test]
fn current_dir_anchors_a_relative_input() {
    let files = ["/home/u/proj/Cargo.toml"];
    let out = run(find_from_current_dir("proj", None), Some("/home/u"), &files);
    assert_eq!(out, vec!["/home/u/proj/Cargo.toml".to_string()]);
}

#[test]
fn failed_current_dir_read_falls_back_to_dot() {
    let files = ["Cargo.toml"];
    let out = run(find_from_current_dir("x", None), None, &files);
    assert_eq!(out, vec!["Cargo.toml".to_string()]);
}

#[test]
fn hits_at_every_level_ascend_to_the_root() {
    let files = [
        "/a/b/c/Cargo.toml",
        "/a/b/Cargo.toml",
        "/a/Cargo.toml",
        "/Cargo.toml",
    ];
    let out = run(find("/a/b/c", None, None), Some("/ignored"), &files);
    assert_eq!(
        out,
        vec![
            "/a/b/c/Cargo.toml".to_string(),
            "/a/b/Cargo.toml".to_string(),
            "/a/Cargo.toml".to_string(),
            "/Cargo.toml".to_string(),
        ],
    );
    // one probe per level: never more yields than directory levels
    assert!(out.len() <= 4);
}

#[test]
fn every_yield_ends_in_the_target_name() {
    let files = ["/x/Cargo.toml", "/x/y/Cargo.toml", "/x/y/z/other.txt"];
    let out = run(find("/x/y/z", None, None), Some("/ignored"), &files);
    assert_eq!(out, vec!["/x/y/Cargo.toml".to_string(), "/x/Cargo.toml".to_string()]);
    for p in &out {
        assert!(p.ends_with("/Cargo.toml"));
    }
}

#[test]
fn equal_inputs_yield_equal_sequences() {
    let files = ["/r/s/Cargo.toml", "/r/Cargo.toml"];
    let first = run(find("/r/s", None, None), Some("/ignored"), &files);
    let second = run(find("/r/s", None, None), Some("/ignored"), &files);
    assert_eq!(first, second);
}

#[test]
fn root_start_probes_once_and_ends() {
    let files = ["/Cargo.toml"];
    let out = run(find("/", None, None), Some("/ignored"), &files);
    assert_eq!(out, vec!["/Cargo.toml".to_string()]);
}

#[test]
fn probes_visit_each_level_in_order() {
    let mut it = find("/tmp/d/sub", None, None);
    assert!(it.needs_cwd());
    it.supply_cwd(Some("/ignored"));
    // the starting path's own file check comes first
    assert_eq!(it.pending_probe().unwrap(), "/tmp/d/sub");
    assert!(matches!(it.advance(false), Step::Continue));
    // then one candidate per directory, nearest first
    assert_eq!(it.pending_probe().unwrap(), "/tmp/d/sub/Cargo.toml");
    assert!(matches!(it.advance(false), Step::Continue));
    assert_eq!(it.pending_probe().unwrap(), "/tmp/d/Cargo.toml");
    match it.advance(true) {
        Step::Yield(p) => assert_eq!(p, "/tmp/d/Cargo.toml"),
        _ => panic!("expected a hit"),
    }
    assert_eq!(it.pending_probe().unwrap(), "/tmp/Cargo.toml");
    assert!(matches!(it.advance(false), Step::Continue));
    assert_eq!(it.pending_probe().unwrap(), "/Cargo.toml");
    assert!(matches!(it.advance(false), Step::Done));
    assert!(it.pending_probe().is_none());
}

#[test]
fn trailing_and_doubled_separators_are_harmless() {
    let files = ["/tmp/b/Cargo.toml"];
    let out = run(find("/tmp//b/", None, None), Some("/ignored"), &files);
    assert_eq!(out, vec!["/tmp/b/Cargo.toml".to_string()]);
}

#[test]
fn dot_and_dotdot_in_the_input_are_resolved() {
    let files = ["/tmp/f/Cargo.toml"];
    let out = run(find("f/./sub/..", Some("/tmp"), None), Some("/ignored"), &files);
    assert_eq!(out, vec!["/tmp/f/Cargo.toml".to_string()]);
}
