use textbuffer::{Entry, RawEntry, WorkspaceInfo};
use textbuffer::workspace::{build_entries, find_workspace, read_workspace};

fn raw_file(path: &str) -> RawEntry {
    RawEntry { path: path.to_string(), is_dir: false, children: Vec::new() }
}

fn raw_dir(path: &str, children: Vec<RawEntry>) -> RawEntry {
    RawEntry { path: path.to_string(), is_dir: true, children }
}

fn info(path: &str, has_vc: bool) -> WorkspaceInfo {
    WorkspaceInfo { path: path.to_string(), has_vc }
}

#[test]
fn find_workspace_picks_outermost_versioned_ancestor() {
    let r = find_workspace(
        "/home/u/proj/sub".to_string(),
        vec![
            info("/home/u/proj/sub", false),
            info("/home/u/proj", true),
            info("/home/u", true),
            info("/home", false),
        ],
    );
    assert_eq!(r.path, "/home/u");
    assert!(r.has_vc);
}

#[test]
fn find_workspace_falls_back_to_cwd() {
    let r = find_workspace(
        "/tmp/x".to_string(),
        vec![info("/tmp/x", false), info("/tmp", false), info("/", false)],
    );
    assert_eq!(r.path, "/tmp/x");
    assert!(!r.has_vc);
}

#[test]
fn entry_name_is_last_path_component() {
    let e = Entry::File { path: "/a/b/c.rs".to_string(), level: 0 };
    assert_eq!(e.name(), "c.rs");
    assert_eq!(e.path(), "/a/b/c.rs");
    assert_eq!(e.level(), 0);
    assert!(!e.is_dir());
}

#[test]
fn marker_name_is_ellipsis() {
    let e = Entry::ContinuationMarker { parent: "/a/b".to_string(), level: 1 };
    assert_eq!(e.name(), "...");
    assert_eq!(e.path(), "/a/b");
    assert!(!e.is_dir());
}

#[test]
fn build_sorts_directories_before_files_by_name() {
    let listing = vec![
        raw_file("/w/zeta.rs"),
        raw_dir("/w/src", vec![]),
        raw_file("/w/alpha.rs"),
        raw_dir("/w/docs", vec![]),
    ];
    let entries = build_entries(listing, 0, 1);
    let names: Vec<String> = entries.iter().map(|e| e.name()).collect();
    assert_eq!(names, vec!["docs", "src", "alpha.rs", "zeta.rs"]);
    assert!(entries[0].is_dir());
    assert!(entries[1].is_dir());
    assert!(!entries[2].is_dir());
}

#[test]
fn build_gives_deep_directories_a_marker() {
    let listing = vec![raw_dir(
        "/w/a",
        vec![raw_dir("/w/a/b", vec![raw_file("/w/a/b/deep.rs")])],
    )];
    let entries = read_workspace(info("/w", false), listing).entries;
    assert_eq!(entries.len(), 1);
    match &entries[0] {
        Entry::Dir { children, level, .. } => {
            assert_eq!(*level, 0);
            assert_eq!(children.len(), 1);
            match &children[0] {
                Entry::Dir { children: grand, level, .. } => {
                    assert_eq!(*level, 1);
                    assert_eq!(grand.len(), 1);
                    match &grand[0] {
                        Entry::ContinuationMarker { parent, level } => {
                            assert_eq!(parent, "/w/a/b");
                            assert_eq!(*level, 1);
                        },
                        _ => panic!("expected a continuation marker"),
                    }
                },
                _ => panic!("expected a nested directory"),
            }
        },
        _ => panic!("expected a directory"),
    }
}

#[test]
fn workspace_entries_flatten_one_level() {
    let listing = vec![
        raw_dir("/w/src", vec![raw_file("/w/src/main.rs"), raw_file("/w/src/lib.rs")]),
        raw_file("/w/readme.md"),
    ];
    let ws = read_workspace(info("/w", true), listing);
    assert_eq!(ws.info.path, "/w");
    let views = ws.entries();
    let shown: Vec<(String, usize)> = views.iter().map(|v| (v.name.clone(), v.level)).collect();
    assert_eq!(
        shown,
        vec![
            ("src".to_string(), 0),
            ("lib.rs".to_string(), 1),
            ("main.rs".to_string(), 1),
            ("readme.md".to_string(), 0),
        ]
    );
    assert_eq!(views[1].path, "/w/src/lib.rs");
}

#[test]
fn build_sort_is_stable_for_equal_names() {
    // Two raw entries with the same file name sort stably: the one listed
    // first stays first.
    let listing = vec![
        raw_file("/w/one/same.rs"),
        raw_file("/w/two/same.rs"),
        raw_file("/w/aaa.rs"),
    ];
    let entries = build_entries(listing, 0, 1);
    let paths: Vec<String> = entries.iter().map(|e| e.path().clone()).collect();
    assert_eq!(paths, vec!["/w/aaa.rs", "/w/one/same.rs", "/w/two/same.rs"]);
}
