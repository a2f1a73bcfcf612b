use std::path::Path;

use tempfile::TempDir;
use wecom::error::{Error, Payload};
use wecom::fs::path::Component;
use wecom::fs::walk::{
    deepest_existing_ancestor, names_in, pick_entry, readable_not_found, DirEntry, TailStep,
    TailWalk,
};

fn of_path(path: &Path) -> Vec<Component> {
    path.components()
        .map(|component| match component {
            std::path::Component::Prefix(prefix) => {
                Component::Prefix(prefix.as_os_str().to_string_lossy().into_owned())
            }
            std::path::Component::RootDir => Component::RootDir,
            std::path::Component::CurDir => Component::CurDir,
            std::path::Component::ParentDir => Component::ParentDir,
            std::path::Component::Normal(name) => {
                Component::Normal(name.to_string_lossy().into_owned())
            }
        })
        .collect()
}

fn comps(path: &str) -> Vec<Component> {
    of_path(Path::new(path))
}

fn to_path(components: &[Component]) -> std::path::PathBuf {
    components
        .iter()
        .map(|component| match component {
            Component::Prefix(text) | Component::Normal(text) => text.as_str(),
            Component::RootDir => "/",
            Component::CurDir => ".",
            Component::ParentDir => "..",
        })
        .collect()
}

fn dir_in(parent: &Path, name: &str) -> TempDir {
    tempfile::Builder::new().prefix(name).rand_bytes(0).tempdir_in(parent).unwrap()
}

fn file_in(parent: &Path, name: &str) -> tempfile::NamedTempFile {
    tempfile::Builder::new().prefix(name).rand_bytes(0).tempfile_in(parent).unwrap()
}

fn ancestor_of(path: &Path) -> Option<(Vec<Component>, Vec<String>)> {
    let mut prefix = std::path::PathBuf::new();
    let mut is_dir = Vec::new();
    for component in path.components() {
        prefix.push(component);
        is_dir.push(prefix.is_dir());
    }
    deepest_existing_ancestor(&of_path(path), &is_dir)
}

fn dir(name: &str) -> DirEntry {
    DirEntry { name: name.to_string(), is_file: false, is_dir: true }
}

fn file(name: &str) -> DirEntry {
    DirEntry { name: name.to_string(), is_file: true, is_dir: false }
}

#[test]
fn deepest_ancestor_one_level_nonexistent() {
    let tmp = TempDir::new().unwrap();
    // /tmp/a  exists, /tmp/a/b/c.md does not
    let _a = dir_in(tmp.path(), "a");
    let path = tmp.path().join("a/b/c.md");

    let (ancestor, tail) = ancestor_of(&path).unwrap();
    assert_eq!(ancestor, of_path(&tmp.path().join("a")));
    assert_eq!(tail, vec!["b".to_string(), "c.md".to_string()]);
}

#[test]
fn deepest_ancestor_multi_level_nonexistent() {
    let tmp = TempDir::new().unwrap();
    let _a = dir_in(tmp.path(), "a");
    let path = tmp.path().join("a/b/c/d.md");

    let (ancestor, tail) = ancestor_of(&path).unwrap();
    assert_eq!(ancestor, of_path(&tmp.path().join("a")));
    assert_eq!(
        tail,
        vec!["b".to_string(), "c".to_string(), "d.md".to_string(),]
    );
}

#[test]
fn deepest_ancestor_fully_existent_returns_none() {
    let tmp = TempDir::new().unwrap();
    let result = ancestor_of(tmp.path());
    assert!(result.is_none());
}

#[test]
fn deepest_ancestor_file_as_intermediate() {
    let tmp = TempDir::new().unwrap();
    let _a = dir_in(tmp.path(), "a");
    let _file = file_in(&tmp.path().join("a"), "f.txt");
    let path = tmp.path().join("a/f.txt/e.md");

    let (ancestor, tail) = ancestor_of(&path).unwrap();
    assert_eq!(ancestor, of_path(&tmp.path().join("a")));
    assert_eq!(tail, vec!["f.txt".to_string(), "e.md".to_string()]);
}

#[test]
fn deepest_ancestor_only_root_with_multi_level() {
    let tmp = TempDir::new().unwrap();
    let path = tmp.path().join("a/b/c.md");

    let (ancestor, tail) = ancestor_of(&path).unwrap();
    assert_eq!(ancestor, of_path(&tmp.path().to_path_buf()));
    assert_eq!(
        tail,
        vec!["a".to_string(), "b".to_string(), "c.md".to_string()]
    );
}

#[test]
fn deepest_ancestor_existing_file_walks_to_parent() {
    let tmp = TempDir::new().unwrap();
    let _a = dir_in(tmp.path(), "a");
    let _file = file_in(&tmp.path().join("a"), "data.txt");
    let path = tmp.path().join("a/data.txt");

    let (ancestor, tail) = ancestor_of(&path).unwrap();
    assert_eq!(ancestor, of_path(&tmp.path().join("a")));
    assert_eq!(tail, vec!["data.txt".to_string()]);
}

#[test]
fn deepest_ancestor_single_component() {
    let tmp = TempDir::new().unwrap();
    let path = tmp.path().join("c.md");
    // c.md does not exist; only the tempdir root exists.

    let (ancestor, tail) = ancestor_of(&path).unwrap();
    assert_eq!(ancestor, of_path(&tmp.path().to_path_buf()));
    assert_eq!(tail, vec!["c.md".to_string()]);
}

#[test]
fn deepest_ancestor_deep_nonexistent() {
    let tmp = TempDir::new().unwrap();
    let _a = dir_in(tmp.path(), "a");
    let path = tmp.path().join("a/b/c/d/e/f.md");

    let (ancestor, tail) = ancestor_of(&path).unwrap();
    assert_eq!(ancestor, of_path(&tmp.path().join("a")));
    assert_eq!(
        tail,
        vec![
            "b".to_string(),
            "c".to_string(),
            "d".to_string(),
            "e".to_string(),
            "f.md".to_string(),
        ]
    );
}

#[test]
fn names_are_those_of_files_at_the_last_level() {
    let entries = [dir("a"), file("b"), dir("c"), file("d")];
    assert_eq!(names_in(&entries, true), vec!["b".to_string(), "d".to_string()]);
    assert_eq!(names_in(&entries, false), vec!["a".to_string(), "c".to_string()]);
    assert_eq!(pick_entry("B", &entries, true), Some(1));
    assert_eq!(pick_entry("b", &entries, false), None);
    assert_eq!(pick_entry("b", &[], true), None);
}

#[test]
fn a_walk_goes_down_level_by_level() {
    let mut walk = TailWalk::new(comps("/work"), vec!["Doc s".to_string(), "a b.md".to_string()]);
    assert!(!walk.is_done());
    assert_eq!(walk.step(comps("/work"), &[dir("docs"), file("docs.md")]), TailStep::Descended);
    assert_eq!(*walk.current(), comps("/work/docs"));
    assert_eq!(walk.step(comps("/work/docs"), &[dir("ab.md"), file("ab.md")]), TailStep::Descended);
    assert!(walk.is_done());
    assert_eq!(*walk.current(), comps("/work/docs/ab.md"));
}

#[test]
fn a_walk_stops_where_nothing_is_beyond_doubt() {
    let mut walk = TailWalk::new(comps("/work"), vec!["x".to_string()]);
    assert_eq!(walk.step(comps("/work"), &[file("xa"), file("xb")]), TailStep::NotFound);
    assert_eq!(walk.step(comps("/work"), &[]), TailStep::NotFound);
    assert!(!walk.is_done());
    assert_eq!(*walk.current(), comps("/work"));
    let error = readable_not_found("/work/x");
    assert!(matches!(error, Error::Wrapped(Payload::Other(_))));
    assert_eq!(error.message(), "找不到目标文件: /work/x");
}

#[test]
fn a_level_with_too_many_entries_is_not_searched() {
    let mut entries: Vec<DirEntry> = (0..10_000).map(|i| file(&format!("f{i}"))).collect();
    assert_eq!(pick_entry("f5", &entries, true), Some(5));
    entries.push(file("one more"));
    assert_eq!(pick_entry("f5", &entries, true), None);
}

#[test]
fn a_walk_comes_to_what_its_segments_stand_for() {
    let listing = |place: &[Component]| match place.len() {
        1 => vec![dir("docs"), file("docs.md")],
        _ => vec![file("report.md"), dir("other")],
    };
    let mut walk = TailWalk::new(comps("/"), vec!["Docs".to_string(), "reprot.md".to_string()]);
    while !walk.is_done() {
        let listed = of_path(&to_path(walk.current()));
        let entries = listing(&listed);
        assert_eq!(walk.step(listed, &entries), TailStep::Descended);
    }
    assert_eq!(walk.current(), &comps("/docs/report.md"));
}

#[test]
fn a_walk_goes_on_where_a_directory_was_read() {
    let mut walk = TailWalk::new(comps("/a/link"), vec!["f".to_string()]);
    assert_eq!(walk.step(comps("/a/real"), &[file("f")]), TailStep::Descended);
    assert!(walk.is_done());
    assert_eq!(*walk.current(), comps("/a/real/f"));

    let mut walk = TailWalk::new(comps("/a"), vec!["Sub".to_string(), "F.txt".to_string()]);
    assert_eq!(walk.step(comps("/a"), &[dir("sub")]), TailStep::Descended);
    assert_eq!(*walk.current(), comps("/a/sub"));
    assert_eq!(walk.step(comps("/elsewhere"), &[file("f.txt")]), TailStep::Descended);
    assert_eq!(*walk.current(), comps("/elsewhere/f.txt"));
}

#[test]
fn a_level_that_is_not_found_leaves_the_walk_where_it_is() {
    let mut walk = TailWalk::new(comps("/a/link"), vec!["f".to_string()]);
    assert_eq!(walk.step(comps("/a/real"), &[dir("f")]), TailStep::NotFound);
    assert_eq!(*walk.current(), comps("/a/link"));
}
