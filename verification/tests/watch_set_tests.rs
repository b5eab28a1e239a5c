use skuggbox::paths::{file_name, file_stem, join_path, normalize_path, parent_dir, path_covers};
use skuggbox::watch_set::reduce_watch_dirs;

fn reduce(paths: &[&str], cwd: &str) -> Vec<String> {
    let owned: Vec<String> = paths.iter().map(|p| p.to_string()).collect();
    reduce_watch_dirs(&owned, cwd)
}

#[test]
fn nested_directories_collapse_to_the_ancestor() {
    let dirs = reduce(
        &[
            "/a/b/x.glsl",
            "/a/b/y.glsl",
            "/a/b/c/z.glsl",
            "/a/q.glsl",
        ],
        "/cwd",
    );
    assert_eq!(dirs, vec!["/a".to_string()]);
}

#[test]
fn reduction_does_not_depend_on_order() {
    let forward = reduce(&["/a/q.glsl", "/a/b/x.glsl", "/a/b/c/z.glsl"], "/cwd");
    let backward = reduce(&["/a/b/c/z.glsl", "/a/b/x.glsl", "/a/q.glsl"], "/cwd");
    assert_eq!(forward, vec!["/a".to_string()]);
    assert_eq!(backward, vec!["/a".to_string()]);
}

#[test]
fn disjoint_directories_stay_separate() {
    let dirs = reduce(&["/a/x.glsl", "/b/y.glsl"], "/cwd");
    assert_eq!(dirs.len(), 2);
    assert!(dirs.contains(&"/a".to_string()));
    assert!(dirs.contains(&"/b".to_string()));
    for i in 0..dirs.len() {
        for j in 0..dirs.len() {
            if i != j {
                assert!(!path_covers(&dirs[i], &dirs[j]));
            }
        }
    }
}

#[test]
fn same_parent_collapses_to_one_watch_directory() {
    let dirs = reduce(&["/a/x.glsl", "/a/y.glsl", "/a/x.glsl"], "/cwd");
    assert_eq!(dirs, vec!["/a".to_string()]);
}

#[test]
fn path_without_parent_falls_back_to_cwd() {
    let dirs = reduce(&["standalone.glsl"], "/work");
    assert_eq!(dirs, vec!["/work".to_string()]);
}

#[test]
fn covers_is_ancestor_or_equal() {
    assert!(path_covers("/a", "/a"));
    assert!(path_covers("/a", "/a/b"));
    assert!(path_covers("/", "/a"));
    assert!(!path_covers("/a/b", "/a"));
    assert!(!path_covers("/a", "/ab"));
}

#[test]
fn dot_components_normalize_away() {
    assert_eq!(normalize_path("/s/deep/../common.glsl"), "/s/common.glsl");
    assert_eq!(normalize_path("/s/./a//b.glsl"), "/s/a/b.glsl");
    assert_eq!(normalize_path("/../a.glsl"), "/a.glsl");
    assert_eq!(normalize_path("/s/a.glsl"), "/s/a.glsl");
    assert_eq!(normalize_path("/"), "/");
}

#[test]
fn lexical_path_parts() {
    assert_eq!(parent_dir("/a/b/main.glsl"), Some("/a/b".to_string()));
    assert_eq!(parent_dir("/main.glsl"), Some("/".to_string()));
    assert_eq!(parent_dir("main.glsl"), None);
    assert_eq!(join_path("/a/b", "c.glsl"), "/a/b/c.glsl");
    assert_eq!(join_path("/", "c.glsl"), "/c.glsl");
    assert_eq!(file_name("/a/b/main.glsl"), "main.glsl");
    assert_eq!(file_stem("/a/b/main.glsl"), "main");
    assert_eq!(file_stem("/a/b/noext"), "noext");
    assert_eq!(file_stem("/a/b/archive.tar.gz"), "archive.tar");
}
