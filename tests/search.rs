use cfind::matcher::{InvalidPattern, MatchMode, Matcher};
use cfind::search::{Root, Searcher};
use cfind::walk::{walk, Entry, Level, WalkError};

fn entry(path: &str) -> Entry {
    let name = path.rsplit('/').next().map(|n| n.to_string());
    Entry { path: path.to_string(), name }
}

fn level(dir: &str, children: &[&str]) -> Level {
    let entries = children
        .iter()
        .map(|c| {
            if dir == "/" {
                entry(&format!("/{}", c))
            } else {
                entry(&format!("{}/{}", dir, c))
            }
        })
        .collect();
    Level { dir: dir.to_string(), entries: Some(entries) }
}

fn unreadable(dir: &str) -> Level {
    Level { dir: dir.to_string(), entries: None }
}

fn root(given: &str, levels: Vec<Level>) -> Root {
    Root { given: given.to_string(), levels: Some(levels) }
}

// Layout: /a/marker.txt, /a/b/, /a/b/c/
fn marker_chain() -> Vec<Level> {
    vec![
        level("/a/b/c", &[]),
        level("/a/b", &["c"]),
        level("/a", &["b", "marker.txt"]),
        level("/", &["a"]),
    ]
}

// Target present two and five levels up from the start.
fn deep_chain() -> Vec<Level> {
    vec![
        level("/l1/l2/l3/l4/l5", &["x"]),
        level("/l1/l2/l3/l4", &["l5"]),
        level("/l1/l2/l3", &["l4", "target"]),
        level("/l1/l2", &["l3"]),
        level("/l1", &["l2"]),
        level("/", &["l1", "target"]),
    ]
}

fn exact(all: bool) -> Searcher {
    Searcher::build().regex(false).find_all(all)
}

#[test]
fn exact_mode_is_case_sensitive() {
    let m = Matcher::new("test.txt", MatchMode::Exact).unwrap();
    assert!(m.matches("test.txt"));
    assert!(!m.matches("Test.txt"));
    assert!(!m.matches("test.txt.bak"));
}

#[test]
fn pattern_mode_searches_within_name() {
    let m = Matcher::new(r"^test.*\.txt$", MatchMode::Pattern).unwrap();
    assert!(m.matches("test1.txt"));
    assert!(!m.matches("atest.txt"));
    let partial = Matcher::new("mark", MatchMode::Pattern).unwrap();
    assert!(partial.matches("a_marker.txt"));
    assert!(!partial.matches("other"));
}

#[test]
fn entry_without_name_never_matches() {
    let m = Matcher::new(".*", MatchMode::Pattern).unwrap();
    assert!(!m.matches_entry(None));
    let e = Matcher::new("", MatchMode::Exact).unwrap();
    assert!(!e.matches_entry(None));
    assert!(e.matches_entry(Some(&String::new())));
}

#[test]
fn invalid_pattern_fails_whole_search() {
    let s = Searcher::build();
    let roots = vec![root("/a/b/c", marker_chain())];
    let r = s.search(&roots, "foo(bar");
    assert_eq!(r.unwrap_err(), InvalidPattern { term: "foo(bar".to_string() });
    assert!(Matcher::new("foo(bar", MatchMode::Pattern).is_err());
    // The same text is a fine exact term.
    assert!(exact(false).search(&roots, "foo(bar").is_ok());
}

#[test]
fn builder_defaults() {
    let s = Searcher::build();
    assert_eq!(s.mode(), MatchMode::Pattern);
    let s = s.regex(false);
    assert_eq!(s.mode(), MatchMode::Exact);
    let s = s.find_all(true).regex(true);
    assert_eq!(s.mode(), MatchMode::Pattern);
}

#[test]
fn first_match_stops_the_walk() {
    let r = exact(false).search(&[root("/l1/l2/l3/l4/l5", deep_chain())], "target").unwrap();
    assert_eq!(r.paths, vec!["/l1/l2/l3/target".to_string()]);
    assert!(r.errors.is_empty());
}

#[test]
fn find_all_collects_every_level() {
    let r = exact(true).search(&[root("/l1/l2/l3/l4/l5", deep_chain())], "target").unwrap();
    assert_eq!(r.paths, vec!["/l1/l2/l3/target".to_string(), "/target".to_string()]);
}

#[test]
fn find_all_keeps_every_match_of_a_level() {
    let chain = vec![level("/d", &["a.txt", "b.rs", "c.txt"]), level("/", &["d", "z.txt"])];
    let r = Searcher::build().search(&[root("/d", chain.clone())], r"\.txt$").unwrap();
    assert_eq!(r.paths, vec!["/d/a.txt".to_string(), "/d/c.txt".to_string()]);
    let r = Searcher::build().find_all(true).search(&[root("/d", chain)], r"\.txt$").unwrap();
    assert_eq!(
        r.paths,
        vec!["/d/a.txt".to_string(), "/d/c.txt".to_string(), "/z.txt".to_string()]
    );
}

#[test]
fn roots_are_independent() {
    let a = root("/q/r", vec![level("/q/r", &["x"]), level("/q", &["r"]), level("/", &["q"])]);
    let b = root("/a/b/c", marker_chain());
    let ab = exact(false).search(&[a.clone(), b.clone()], "marker.txt").unwrap();
    let ba = exact(false).search(&[b, a], "marker.txt").unwrap();
    assert_eq!(ab.paths, vec!["/a/marker.txt".to_string()]);
    assert_eq!(ba.paths, vec!["/a/marker.txt".to_string()]);
}

#[test]
fn each_root_reports_in_order_without_dedup() {
    let b = root("/a/b/c", marker_chain());
    let c = root("/a/b", marker_chain()[1..].to_vec());
    let r = exact(false).search(&[b, c], "marker.txt").unwrap();
    assert_eq!(r.paths, vec!["/a/marker.txt".to_string(), "/a/marker.txt".to_string()]);
}

#[test]
fn clean_ascent_is_empty_not_error() {
    let r = exact(true).search(&[root("/a/b/c", marker_chain())], "absent").unwrap();
    assert!(r.paths.is_empty());
    assert!(r.errors.is_empty());
}

#[test]
fn marker_first_match() {
    let r = exact(false).search(&[root("/a/b/c", marker_chain())], "marker.txt").unwrap();
    assert_eq!(r.paths, vec!["/a/marker.txt".to_string()]);
}

#[test]
fn marker_find_all_single_occurrence() {
    let r = exact(true).search(&[root("/a/b/c", marker_chain())], "marker.txt").unwrap();
    assert_eq!(r.paths, vec!["/a/marker.txt".to_string()]);
    assert!(r.errors.is_empty());
}

#[test]
fn unreadable_level_is_skipped() {
    let chain = vec![
        level("/a/b/c", &[]),
        unreadable("/a/b"),
        level("/a", &["b", "marker.txt"]),
        level("/", &["a"]),
    ];
    let r = exact(true).search(&[root("/a/b/c", chain.clone())], "marker.txt").unwrap();
    assert_eq!(r.paths, vec!["/a/marker.txt".to_string()]);
    assert_eq!(r.errors, vec![WalkError::Unreadable("/a/b".to_string())]);
    let r = exact(false).search(&[root("/a/b/c", chain)], "marker.txt").unwrap();
    assert_eq!(r.paths, vec!["/a/marker.txt".to_string()]);
}

#[test]
fn levels_past_the_stop_are_not_reported() {
    let chain = vec![level("/a", &["m"]), unreadable("/")];
    let r = exact(false).search(&[root("/a", chain.clone())], "m").unwrap();
    assert_eq!(r.paths, vec!["/a/m".to_string()]);
    assert!(r.errors.is_empty());
    let r = exact(true).search(&[root("/a", chain)], "m").unwrap();
    assert_eq!(r.errors, vec![WalkError::Unreadable("/".to_string())]);
}

#[test]
fn unresolved_root_does_not_stop_siblings() {
    let bad = Root { given: "missing".to_string(), levels: None };
    let r = exact(false)
        .search(&[bad, root("/a/b/c", marker_chain())], "marker.txt")
        .unwrap();
    assert_eq!(r.paths, vec!["/a/marker.txt".to_string()]);
    assert_eq!(r.errors, vec![WalkError::Unresolved("missing".to_string())]);
}

#[test]
fn walk_appends_to_existing_results() {
    let m = Matcher::new("marker.txt", MatchMode::Exact).unwrap();
    let mut paths = vec!["/earlier".to_string()];
    let mut errors = Vec::new();
    walk(&m, &marker_chain(), false, &mut paths, &mut errors);
    assert_eq!(paths, vec!["/earlier".to_string(), "/a/marker.txt".to_string()]);
    assert!(errors.is_empty());
}
