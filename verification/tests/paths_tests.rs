use md_reader::app::{MdApp, SidebarTab};
use md_reader::paths::{entry_depth, path_components, same_path};

fn comps(p: &str) -> Vec<String> {
    path_components(p).iter().map(|c| c.iter().collect()).collect()
}

#[test]
fn components_follow_std_path() {
    assert_eq!(comps("/a/./b.md"), vec!["/", "a", "b.md"]);
    assert_eq!(comps("/a//b.md/"), vec!["/", "a", "b.md"]);
    assert_eq!(comps("./a/b"), vec![".", "a", "b"]);
    assert_eq!(comps("a/../b"), vec!["a", "..", "b"]);
    assert_eq!(comps(".a/."), vec![".a"]);
    assert_eq!(comps(""), Vec::<String>::new());
    for p in ["/a/./b.md", "/a//b.md/", "./a/b", "a/../b", ".a/.", "", "/", "x/y/z"] {
        let expected: Vec<String> = std::path::Path::new(p)
            .components()
            .map(|c| c.as_os_str().to_string_lossy().into_owned())
            .collect();
        assert_eq!(comps(p), expected, "{p}");
    }
}

#[test]
fn same_file_under_two_spellings() {
    assert!(same_path("/a/./b.md", "/a/b.md"));
    assert!(same_path("/a//b.md/", "/a/b.md"));
    assert!(!same_path("./a", "a"));
    assert!(!same_path("/a/../b.md", "/b.md"));
    assert!(!same_path("/a/b.md", "/a/c.md"));
}

#[test]
fn recent_files_treat_spellings_of_one_file_as_one() {
    let mut app = MdApp::new(true, true, SidebarTab::Outline, Vec::new());
    app.push_recent("/a/b.md".to_string());
    app.push_recent("/x.md".to_string());
    app.push_recent("/a/./b.md".to_string());
    assert_eq!(app.recent_files, vec!["/a/./b.md".to_string(), "/x.md".to_string()]);
}

#[test]
fn tree_depth_counts_folders_between() {
    assert_eq!(entry_depth("/docs", "/docs/a.md"), 0);
    assert_eq!(entry_depth("/docs", "/docs/sub/deep/a.md"), 2);
    assert_eq!(entry_depth("/docs/", "/docs/./sub/a.md"), 1);
    assert_eq!(entry_depth("/docs", "/other/a.md"), 0);
    assert_eq!(entry_depth("/docs", "/docs"), 0);
}
