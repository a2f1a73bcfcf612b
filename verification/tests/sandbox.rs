use std::path::{Path, PathBuf};

use tempfile::TempDir;
use wecom::error::{Error, Payload};
use wecom::fs::path::Component;
use wecom::fs::sandbox::{
    check_path_in_roots, existing_prefix, normalize_path, resolve_and_check_path,
    resolve_real_path, verify_fd_path, AllowedRoot,
};
use wecom::fs::{absolutize, check_file_size_limit};

fn of_path(path: &Path) -> Vec<Component> {
    path.components()
        .map(|component| match component {
            std::path::Component::Prefix(prefix) => {
                Component::Prefix(prefix.as_os_str().to_string_lossy().into_owned())
            }
            std::path::Component::RootDir => Component::RootDir,
            std::path::Component::CurDir => Component::CurDir,
            std::path::Component::ParentDir => Component::ParentDir,
            std::path::Component::Normal(name) => {
                Component::Normal(name.to_string_lossy().into_owned())
            }
        })
        .collect()
}

fn comps(path: &str) -> Vec<Component> {
    of_path(Path::new(path))
}

fn to_path(components: &[Component]) -> PathBuf {
    let mut path = PathBuf::new();
    for component in components {
        match component {
            Component::Prefix(prefix) => path.push(prefix),
            Component::RootDir => path.push("/"),
            Component::CurDir => path.push("."),
            Component::ParentDir => path.push(".."),
            Component::Normal(name) => path.push(name),
        }
    }
    path
}

fn real_path(path: &Path) -> PathBuf {
    let canonical = path.canonicalize().ok().map(|p| of_path(&p));
    let normal = normalize_path(&of_path(path));
    let exists_at: Vec<bool> = (0..=normal.len()).map(|n| to_path(&normal[..n]).exists()).collect();
    let existing = existing_prefix(&normal, &exists_at);
    let prefix = to_path(&normal[..existing]).canonicalize().ok().map(|p| of_path(&p));
    to_path(&resolve_real_path(canonical, &normal, existing, prefix))
}

fn check(path: &Path, roots: Option<&[PathBuf]>) -> Result<(), Error> {
    let allowed: Option<Vec<AllowedRoot>> = roots.map(|roots| {
        roots
            .iter()
            .map(|root| {
                let real = real_path(root);
                AllowedRoot { place: of_path(&real), display: real.display().to_string() }
            })
            .collect()
    });
    let place = of_path(&real_path(path));
    check_path_in_roots(&place, &path.display().to_string(), allowed.as_deref())
}

fn file_in(parent: &Path, name: &str) -> tempfile::NamedTempFile {
    tempfile::Builder::new().prefix(name).rand_bytes(0).tempfile_in(parent).unwrap()
}

#[test]
fn normalize_removes_dot() {
    assert_eq!(normalize_path(&comps("/a/./b")), comps("/a/b"));
}

#[test]
fn normalize_resolves_dotdot() {
    assert_eq!(
        normalize_path(&comps("/a/b/../c")),
        comps("/a/c")
    );
}

#[test]
fn normalize_multiple_dotdots() {
    assert_eq!(
        normalize_path(&comps("/a/b/c/../../d")),
        comps("/a/d")
    );
}

#[test]
fn normalize_root_only() {
    assert_eq!(normalize_path(&comps("/")), comps("/"));
}

#[test]
fn normalize_empty_path() {
    assert_eq!(normalize_path(&comps("")), comps(""));
}

#[test]
fn normalize_no_special_components() {
    assert_eq!(normalize_path(&comps("/a/b/c")), comps("/a/b/c"));
}

#[test]
fn check_absolute_under_root() {
    let tmp = TempDir::new().unwrap();
    let roots = vec![tmp.path().to_path_buf()];
    let file = tmp.path().join("output/result.json");
    let real = real_path(&file);
    assert!(check(&real, Some(&roots)).is_ok());
    // The resolved path should end with the expected tail
    assert!(
        real.ends_with("output/result.json"),
        "real = {}",
        real.display()
    );
}

#[test]
fn check_dot_path() {
    let tmp = TempDir::new().unwrap();
    let roots = vec![tmp.path().to_path_buf()];
    let joined = tmp.path().join("./data/file.txt");
    let real = real_path(&joined);
    assert!(check(&real, Some(&roots)).is_ok());
    assert!(real.ends_with("data/file.txt"), "real = {}", real.display());
}

#[test]
fn check_inner_dotdot_stays_in_root() {
    let tmp = TempDir::new().unwrap();
    let roots = vec![tmp.path().to_path_buf()];
    let joined = tmp.path().join("sub/../other/file.txt");
    let real = real_path(&joined);
    assert!(check(&real, Some(&roots)).is_ok());
    assert!(
        real.ends_with("other/file.txt"),
        "real = {}",
        real.display()
    );
}

#[test]
fn check_allows_path_under_extra_root() {
    let tmp1 = TempDir::new().unwrap();
    let tmp2 = TempDir::new().unwrap();
    let roots = vec![tmp1.path().to_path_buf(), tmp2.path().to_path_buf()];
    let file = tmp2.path().join("upload.bin");
    let real = real_path(&file);
    assert!(check(&real, Some(&roots)).is_ok());
    assert!(real.ends_with("upload.bin"), "real = {}", real.display());
}

#[test]
fn check_none_roots_allows_any_path() {
    let err = check(&real_path(Path::new("/etc/passwd")), None);
    assert!(err.is_ok(), "None roots should allow any path");
}

#[test]
fn check_rejects_escape() {
    let roots = vec![PathBuf::from("/home/user/project")];
    let joined = Path::new("/home/user/project").join("../../../etc/passwd");
    let err = check(&real_path(&joined), Some(&roots));
    assert!(err.is_err());
    let msg = err.unwrap_err().display();
    assert!(msg.contains("目标路径超出可访问范围"), "msg = {msg}");
}

#[test]
fn check_rejects_absolute_outside_roots() {
    let roots = vec![PathBuf::from("/home/user/project")];
    let err = check(&real_path(Path::new("/etc/passwd")), Some(&roots));
    assert!(err.is_err());
    let msg = err.unwrap_err().display();
    assert!(msg.contains("目标路径超出可访问范围"), "msg = {msg}");
}

#[test]
fn check_rejects_sneaky_dotdot() {
    let roots = vec![PathBuf::from("/home/user/project")];
    let joined = Path::new("/home/user/project").join("a/b/../../../../etc/shadow");
    let err = check(&real_path(&joined), Some(&roots));
    assert!(err.is_err());
}

#[test]
fn check_rejects_path_outside_all_roots() {
    let roots = vec![
        PathBuf::from("/home/user/project"),
        PathBuf::from("/tmp/wecom"),
    ];
    let err = check(&real_path(Path::new("/etc/passwd")), Some(&roots));
    assert!(err.is_err());
}

#[test]
fn resolve_real_path_existing_file() {
    let tmp = TempDir::new().unwrap();
    let kept = file_in(tmp.path(), "exists.txt");
    let file = kept.path();
    let resolved = real_path(file);
    // canonicalize resolves symlinks; on real fs it should match.
    assert_eq!(resolved, file.canonicalize().unwrap());
}

#[test]
fn resolve_real_path_nonexistent_file() {
    let tmp = TempDir::new().unwrap();
    let file = tmp.path().join("does-not-exist.txt");
    let resolved = real_path(&file);
    // The parent exists, so it's canonicalised + the tail appended.
    assert!(
        resolved.to_string_lossy().contains("does-not-exist.txt"),
        "resolved = {}",
        resolved.display()
    );
}

#[test]
fn resolve_real_path_deep_nonexistent() {
    let tmp = TempDir::new().unwrap();
    let path = tmp.path().join("a/b/c/d.txt");
    let resolved = real_path(&path);
    // Use Path::ends_with to be cross-platform (handles `/` vs `\`).
    assert!(
        resolved.ends_with(Path::new("a/b/c/d.txt")),
        "resolved = {}",
        resolved.display()
    );
}

#[test]
fn sandbox_resolve_real_path_root_slash() {
    let resolved = real_path(Path::new("/"));
    assert_eq!(resolved, PathBuf::from("/"));
}

#[test]
fn resolve_real_path_with_dotdot_components() {
    let tmp = TempDir::new().unwrap();
    let path = tmp.path().join("a/../b");
    let resolved = real_path(&path);
    assert!(resolved.to_string_lossy().contains("b"));
    assert!(!resolved.to_string_lossy().contains(".."));
}

#[test]
fn resolve_real_path_nonexistent_under_root() {
    // This path has no existing ancestors until we reach "/".
    // Walking up will eventually hit file_name() == None on "/".
    let resolved = real_path(Path::new("/___nonexistent_test_xyz___/deep/path"));
    assert!(
        resolved
            .to_string_lossy()
            .contains("___nonexistent_test_xyz___")
    );
}

#[test]
fn resolve_real_path_with_dot_components() {
    // Tests that CurDir (`.`) is properly handled by normalize_path
    let tmp = TempDir::new().unwrap();
    let path = tmp.path().join("./sub/./file.txt");
    let resolved = real_path(&path);
    assert!(!resolved.to_string_lossy().contains("/./"));
}

#[test]
fn absolutize_joins_relative_path_onto_cwd() {
    assert_eq!(
        absolutize(&comps("/work"), &comps("sub/file.txt")),
        comps("/work/sub/file.txt")
    );
}

#[test]
fn absolutize_keeps_absolute_path() {
    assert_eq!(absolutize(&comps("/work"), &comps("/etc/hosts")), comps("/etc/hosts"));
}

#[test]
fn absolutize_agrees_with_the_join_of_paths() {
    for dir in ["", "/", "/work", "a", "./a", ".."] {
        for path in ["", ".", "./b", "b/c", "../x", "/etc", "/"] {
            assert_eq!(
                absolutize(&comps(dir), &comps(path)),
                of_path(&Path::new(dir).join(path)),
                "{dir} {path}"
            );
        }
    }
}

#[test]
fn normalizing_stops_at_the_root() {
    assert_eq!(normalize_path(&comps("/../../a")), comps("/a"));
    assert_eq!(normalize_path(&comps("../a/../..")), comps(""));
    let twice = normalize_path(&normalize_path(&comps("/a/b/../../../c")));
    assert_eq!(twice, comps("/c"));
}

#[test]
fn a_root_allows_itself_and_what_is_below_but_not_its_namesakes() {
    let roots = [AllowedRoot { place: comps("/srv/data"), display: "/srv/data".to_string() }];
    assert!(check_path_in_roots(&comps("/srv/data"), "x", Some(&roots)).is_ok());
    assert!(check_path_in_roots(&comps("/srv/data/a/b"), "x", Some(&roots)).is_ok());
    assert!(check_path_in_roots(&comps("/srv/database"), "x", Some(&roots)).is_err());
    assert!(check_path_in_roots(&comps("/srv"), "x", Some(&roots)).is_err());
    assert!(check_path_in_roots(&comps("/srv/data"), "x", Some(&[])).is_err());
}

#[test]
fn the_message_names_the_path_and_the_roots() {
    let roots = [
        AllowedRoot { place: comps("/a"), display: "/a".to_string() },
        AllowedRoot { place: comps("/b"), display: "/b".to_string() },
    ];
    let error = check_path_in_roots(&comps("/etc"), "/etc", Some(&roots)).unwrap_err();
    assert!(matches!(error, Error::Wrapped(Payload::Permission(_))));
    assert_eq!(error.message(), "目标路径超出可访问范围: /etc (允许范围: /a, /b)");
    let resolved = resolve_and_check_path(comps("/a/x"), "/a/x", Some(&roots)).unwrap();
    assert_eq!(resolved, comps("/a/x"));
    assert!(resolve_and_check_path(comps("/c"), "/c", Some(&roots)).is_err());
}

#[test]
fn an_opened_file_is_checked_where_its_place_is_known() {
    let roots = [AllowedRoot { place: comps("/a"), display: "/a".to_string() }];
    assert!(verify_fd_path(Some(&comps("/a/f")), "/a/f", Some(&roots)).is_ok());
    assert!(verify_fd_path(Some(&comps("/etc/f")), "/etc/f", Some(&roots)).is_err());
    assert!(verify_fd_path(Some(&comps("/etc/f")), "/etc/f", None).is_ok());
    assert!(verify_fd_path(None, "/etc/f", Some(&roots)).is_ok());
}

#[test]
fn files_up_to_the_limit_pass() {
    assert!(check_file_size_limit("small.txt", 10, 1024, "0.0").is_ok());
    assert!(check_file_size_limit("exact.txt", 10, 10, "0.0").is_ok());
    let error = check_file_size_limit("big.txt", 10, 4, "0.0").unwrap_err();
    assert!(matches!(error, Error::Wrapped(Payload::Validation(_))));
    assert_eq!(error.message(), "文件 \"big.txt\" 大小超过 0.0 MB 限制");
}

#[test]
fn resolving_twice_is_resolving_once() {
    let tmp = TempDir::new().unwrap();
    let dir = tmp.path().to_path_buf();
    let file = file_in(tmp.path(), "there");
    let paths = [
        dir.clone(),
        file.path().to_path_buf(),
        dir.join("missing"),
        dir.join("missing/deeper/still"),
        dir.join("missing/../other"),
        dir.join("./../x/./y"),
        PathBuf::from("/"),
    ];
    for path in paths {
        let once = real_path(&path);
        assert_eq!(real_path(&once), once);
    }
}
