use std::path::Path;

use wecom::fs::fuzzy::WALK_DEPTH_MAX;
use wecom::fs::path::Component;
use wecom::fs::root_trie::RootTrie;

fn of_path(path: &Path) -> Vec<Component> {
    path.components()
        .map(|component| match component {
            std::path::Component::Prefix(prefix) => {
                Component::Prefix(prefix.as_os_str().to_string_lossy().into_owned())
            }
            std::path::Component::RootDir => Component::RootDir,
            std::path::Component::CurDir => Component::CurDir,
            std::path::Component::ParentDir => Component::ParentDir,
            std::path::Component::Normal(name) => {
                Component::Normal(name.to_string_lossy().into_owned())
            }
        })
        .collect()
}

fn comps(path: &str) -> Vec<Component> {
    of_path(Path::new(path))
}

fn paths(ps: &[&str]) -> Vec<Vec<Component>> {
    ps.iter().map(|p| comps(p)).collect()
}

#[test]
fn trie_root_name_space_multi_sibling() {
    let trie = RootTrie::build(&paths(&["/skills", "/data", "/workspace"]));
    let result = trie.anchor(&comps("/work space/data1.md"));
    let (root, tail) = result.expect("should anchor to workspace");
    assert_eq!(root, comps("/workspace"));
    assert_eq!(tail, vec!["data1.md".to_string()]);
}

#[test]
fn trie_deep_root_segment_space() {
    let trie = RootTrie::build(&paths(&["/a/b/c"]));
    let result = trie.anchor(&comps("/a/b /c/x.md"));
    let (root, tail) = result.expect("should anchor to /a/b/c");
    assert_eq!(root, comps("/a/b/c"));
    assert_eq!(tail, vec!["x.md".to_string()]);
}

#[test]
fn trie_shared_prefix_correct_branch() {
    let trie = RootTrie::build(&paths(&[
        "/a/wecom/corpX/temp/sess1",
        "/a/wecom/otherCorp/temp/sess2",
    ]));
    let result = trie.anchor(&comps("/a/wecom/corp X/temp/sess1/f.md"));
    let (root, tail) = result.expect("should anchor to corpX/sess1");
    assert_eq!(root, comps("/a/wecom/corpX/temp/sess1"));
    assert_eq!(tail, vec!["f.md".to_string()]);
}

#[test]
fn trie_no_close_root_aborts() {
    let trie = RootTrie::build(&paths(&["/skills", "/data"]));
    assert!(trie.anchor(&comps("/zzzzz/x.md")).is_none());
}

#[test]
fn trie_input_stops_at_root_no_tail() {
    let trie = RootTrie::build(&paths(&["/workspace"]));
    let (root, tail) = trie
        .anchor(&comps("/workspace"))
        .expect("should anchor to /workspace");
    assert_eq!(root, comps("/workspace"));
    assert!(tail.is_empty(), "tail should be empty");
}

#[test]
fn trie_first_level_near_tie_aborts() {
    let trie = RootTrie::build(&paths(&["/rootA/dir", "/rootB/dir"]));
    let result = trie.anchor(&comps("/rootX/file.md"));
    assert!(result.is_none());
}

#[test]
fn trie_nested_roots_deepest_wins() {
    let trie = RootTrie::build(&paths(&["/a/b", "/a/b/c"]));
    let result = trie.anchor(&comps("/a/b/c/f.md"));
    let (root, tail) = result.expect("should pick deepest /a/b/c");
    assert_eq!(root, comps("/a/b/c"));
    assert_eq!(tail, vec!["f.md".to_string()]);
}

#[test]
fn trie_single_root_exact_with_tail() {
    let trie = RootTrie::build(&paths(&["/workspace"]));
    let result = trie.anchor(&comps("/workspace/src/main.rs"));
    let (root, tail) = result.expect("should anchor to /workspace");
    assert_eq!(root, comps("/workspace"));
    assert_eq!(tail, vec!["src".to_string(), "main.rs".to_string()]);
}

#[test]
fn trie_empty_roots_returns_none() {
    let trie = RootTrie::build(&[]);
    assert!(trie.anchor(&comps("/anything")).is_none());
}

#[test]
fn trie_partial_match_no_complete_root() {
    let trie = RootTrie::build(&paths(&["/a/b/c/d"]));
    // /a/b exists as a non-complete inner node, no tail past any complete root.
    assert!(trie.anchor(&comps("/a/b/x.md")).is_none());
}

#[test]
fn trie_tail_exceeds_max_depth() {
    let trie = RootTrie::build(&paths(&["/root"]));
    let mut segs: Vec<String> = vec!["/".into(), "root".into()];
    for i in 0..17 {
        segs.push(format!("level{i}"));
    }
    let (root, tail) = trie
        .anchor(&comps(&segs.join("/")))
        .expect("should anchor to /root");
    assert_eq!(root, comps("/root"));
    assert_eq!(tail.len(), 17);
    assert!(tail.len() > WALK_DEPTH_MAX);
}

#[test]
fn trie_fuzzy_root_name_correction() {
    let trie = RootTrie::build(&paths(&["/data", "/other"]));
    let result = trie.anchor(&comps("/dta/f.md"));
    let (root, tail) = result.expect("should fuzzy-correct to /data");
    assert_eq!(root, comps("/data"));
    assert_eq!(tail, vec!["f.md".to_string()]);
}

#[test]
fn trie_root_slash_with_tail() {
    let trie = RootTrie::build(&paths(&["/"]));
    let result = trie.anchor(&comps("/a/b.txt"));
    let (root, tail) = result.expect("should anchor at /");
    assert_eq!(root, comps("/"));
    assert_eq!(tail, vec!["a".to_string(), "b.txt".to_string()]);
}

#[test]
fn trie_root_slash_no_tail() {
    let trie = RootTrie::build(&paths(&["/"]));
    let (root, tail) = trie.anchor(&comps("/")).expect("should anchor at /");
    assert_eq!(root, comps("/"));
    assert!(tail.is_empty(), "tail should be empty");
}

#[test]
fn trie_shared_prefix_intermediate_abort_returns_deepest_complete() {
    let trie = RootTrie::build(&paths(&["/a/b"]));
    // /a/b is complete root. Input has "c" that can't match below /a/b
    // because /a/b has no children. pick returns Abort → loop breaks.
    // anchor was set to (2, /a/b) → tail=[c].
    let result = trie.anchor(&comps("/a/b/c"));
    let (root, tail) = result.expect("/a/b is complete, c is tail");
    assert_eq!(root, comps("/a/b"));
    assert_eq!(tail, vec!["c".to_string()]);
}

#[test]
fn trie_build_skips_empty_path() {
    let trie = RootTrie::build(&paths(&["/workspace", ""]));
    let result = trie.anchor(&comps("/workspace/f.md"));
    let (root, tail) = result.expect("empty path should be skipped, /workspace works");
    assert_eq!(root, comps("/workspace"));
    assert_eq!(tail, vec!["f.md".to_string()]);
}

#[test]
fn trie_anchor_no_root_prefix_returns_none() {
    let trie = RootTrie::build(&paths(&["/a"]));
    assert!(trie.anchor(&comps("a/b")).is_none());
}

#[test]
fn a_root_typed_as_it_is_goes_before_a_close_one() {
    let trie = RootTrie::build(&paths(&["/data1", "/data2"]));
    let (root, tail) = trie.anchor(&comps("/data2/x")).unwrap();
    assert_eq!(root, comps("/data2"));
    assert_eq!(tail, vec!["x".to_string()]);
}

#[test]
fn relative_roots_are_passed_over() {
    let trie = RootTrie::build(&paths(&["data", "/work"]));
    assert!(trie.anchor(&comps("data/x")).is_none());
    assert!(trie.anchor(&comps("/data/x")).is_none());
    assert!(trie.anchor(&comps("/work/x")).is_some());
}

#[test]
fn a_root_typed_as_it_is_is_anchored_whatever_follows() {
    let trie = RootTrie::build(&paths(&["/data/in", "/data/in/deep"]));
    for typed in ["/data/in", "/data/in/../x", "/data/in/a/../..", "/data/in/zzz/deep"] {
        let (root, tail) = trie.anchor(&comps(typed)).unwrap();
        assert_eq!(root, comps("/data/in"));
        assert_eq!(tail.len(), comps(typed).len() - root.len());
    }
    let (root, tail) = trie.anchor(&comps("/data/in/deep/../x")).unwrap();
    assert_eq!(root, comps("/data/in/deep"));
    assert_eq!(tail, ["..", "x"]);
}

#[test]
fn other_path_structure_of_a_root_stands_against_an_anchor() {
    let trie = RootTrie::build(&paths(&["/a", "/a/../b"]));
    let mut typed = comps("/a");
    typed.push(Component::CurDir);
    assert!(trie.anchor(&typed).is_none());
    assert_eq!(trie.anchor(&comps("/a/..")).unwrap().0, comps("/a"));
}

#[test]
fn plain_roots_are_always_anchored_whatever_follows() {
    let trie = RootTrie::build(&paths(&["/", "/data", "/data/in"]));
    for rest in [
        vec![Component::CurDir],
        vec![Component::ParentDir, Component::RootDir],
        vec![Component::Prefix("C:".to_string())],
        vec![Component::Normal("x".to_string()), Component::CurDir],
    ] {
        let mut typed = comps("/data");
        typed.extend(rest);
        assert_eq!(trie.anchor(&typed).unwrap().0, comps("/data"));
    }
}
