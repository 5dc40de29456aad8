use cfind::path::{ancestors, parent_dir};
use cfind::search::Searcher;

#[test]
fn parent_of_paths() {
    assert_eq!(parent_dir("/a/b/c"), Some("/a/b".to_string()));
    assert_eq!(parent_dir("/a"), Some("/".to_string()));
    assert_eq!(parent_dir("/"), None);
    assert_eq!(parent_dir("/héllo/wörld"), Some("/héllo".to_string()));
}

#[test]
fn ancestor_chain_ends_at_root() {
    let c = ancestors("/a/b/c");
    assert_eq!(c, vec!["/a/b/c", "/a/b", "/a", "/"]);
    assert_eq!(ancestors("/"), vec!["/".to_string()]);
}

#[test]
fn root_has_no_parent() {
    let s = Searcher::build();
    assert!(s.is_root("/"));
    assert!(!s.is_root("/a"));
}
