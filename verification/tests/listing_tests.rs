use md_reader::app::{is_reload_event, launch_steps, LaunchStep, WatchEventKind};
use md_reader::cli::LaunchArg;
use md_reader::listing::{plan_listing, DirEntryInfo, ListingStep};

fn entry(name: &str, dir: bool, ext: &str) -> DirEntryInfo {
    DirEntryInfo {
        name: name.to_string(),
        sorts_as_dir: dir,
        is_dir: dir,
        extension: ext.to_string(),
    }
}

#[test]
fn listing_puts_folders_first_and_filters() {
    let entries = vec![
        entry("b.md", false, "md"),
        entry("zdir", true, ""),
        entry("a.txt", false, "txt"),
        entry(".git", true, ""),
        entry("img.png", false, "png"),
        entry("adir", true, ""),
        entry("Z.markdown", false, "markdown"),
    ];
    let (order, steps) = plan_listing(&entries, 0, 4);
    assert_eq!(order, vec![3, 5, 1, 6, 2, 0, 4]);
    assert_eq!(
        steps,
        vec![
            ListingStep::Descend(5),
            ListingStep::Descend(1),
            ListingStep::Include(6),
            ListingStep::Include(2),
            ListingStep::Include(0),
        ]
    );
}

#[test]
fn listing_stops_below_the_depth_limit() {
    let entries = vec![entry("a.md", false, "md")];
    let (_, steps) = plan_listing(&entries, 5, 4);
    assert!(steps.is_empty());
    let (_, steps) = plan_listing(&entries, 4, 4);
    assert_eq!(steps, vec![ListingStep::Include(0)]);
}

#[test]
fn listing_sort_is_stable_and_by_code_point() {
    let entries = vec![
        entry("é.md", false, "md"),
        entry("e.md", false, "md"),
        entry("same", false, "md"),
        entry("same", false, "md"),
    ];
    let (order, _) = plan_listing(&entries, 0, 0);
    assert_eq!(order, vec![1, 2, 3, 0]);
}

#[test]
fn launch_with_a_folder_opens_its_readme() {
    let steps = launch_steps(LaunchArg::Dir("/docs".into()), Some("/old".into()), None);
    assert_eq!(steps.len(), 4);
    assert!(matches!(steps[0], LaunchStep::ShowFileTree));
    match &steps[1] {
        LaunchStep::ChooseFirstExisting(c) => assert_eq!(
            c,
            &vec![
                "/docs/README.md".to_string(),
                "/docs/readme.md".to_string(),
                "/docs/Readme.md".to_string()
            ]
        ),
        other => panic!("{other:?}"),
    }
    assert!(matches!(&steps[2], LaunchStep::ScanFolder(p) if p == "/docs"));
    assert!(matches!(steps[3], LaunchStep::OpenChosen));
}

#[test]
fn launch_restores_the_previous_session() {
    let steps = launch_steps(LaunchArg::NoArg, Some("/f".into()), Some("/f/a.md".into()));
    assert!(matches!(&steps[..], [LaunchStep::ScanFolderIfDir(f), LaunchStep::OpenFileIfExists(g)] if f == "/f" && g == "/f/a.md"));
    let steps = launch_steps(LaunchArg::File("/x.md".into()), Some("/f".into()), Some("/y.md".into()));
    assert!(matches!(&steps[..], [LaunchStep::OpenFile(p), LaunchStep::ScanFolderIfDir(f)] if p == "/x.md" && f == "/f"));
    let steps = launch_steps(LaunchArg::Error("bad".into()), None, Some("/y.md".into()));
    assert!(matches!(&steps[..], [LaunchStep::Status(m), LaunchStep::OpenFileIfExists(f)] if m == "bad" && f == "/y.md"));
}

#[test]
fn only_creation_and_modification_reload() {
    assert!(is_reload_event(WatchEventKind::Create));
    assert!(is_reload_event(WatchEventKind::Modify));
    assert!(!is_reload_event(WatchEventKind::Other));
}
