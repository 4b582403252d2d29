use md_reader::app::{
    all_commands, command_label, command_matches, read_minutes, speech_result_message, Command,
    MdApp, SidebarTab,
};
use md_reader::cli::{classify_args, classify_path, is_markdown_extension, ArgRequest, LaunchArg, PathKind};
use md_reader::document::Document;
use md_reader::tts::SpeechOutcome;

fn app_with(content: &str) -> MdApp {
    let mut app = MdApp::new(true, true, SidebarTab::Outline, Vec::new());
    let doc = Document::from_source(content.to_string(), "/d");
    app.open_document("/d/f.md".to_string(), doc);
    app
}

#[test]
fn search_ignores_case_and_does_not_overlap() {
    let mut app = app_with("Aaa aA é ÉA");
    app.search_query = "AA".to_string();
    app.search_idx = 3;
    app.run_search();
    assert_eq!(app.search_results, vec![0, 4]);
    let mut app = app_with("ÉÉ aA AA");
    app.search_query = "Aa".to_string();
    app.run_search();
    assert_eq!(app.search_results, vec![5, 8]);
    assert_eq!(app.search_idx, 0);
    app.search_query = String::new();
    app.run_search();
    assert!(app.search_results.is_empty());
}

#[test]
fn search_without_document_finds_nothing() {
    let mut app = MdApp::new(false, false, SidebarTab::FileTree, Vec::new());
    app.search_query = "x".to_string();
    app.run_search();
    assert!(app.search_results.is_empty());
}

#[test]
fn match_navigation_wraps_both_ways() {
    let mut app = app_with("x x x");
    app.search_query = "x".to_string();
    app.run_search();
    assert_eq!(app.search_results.len(), 3);
    app.prev_match();
    assert_eq!(app.search_idx, 2);
    app.next_match();
    assert_eq!(app.search_idx, 0);
    app.next_match();
    app.prev_match();
    assert_eq!(app.search_idx, 0);
}

#[test]
fn recent_files_are_deduplicated_and_capped() {
    let mut app = MdApp::new(true, true, SidebarTab::Outline, Vec::new());
    for i in 0..12 {
        app.push_recent(format!("f{i}"));
    }
    assert_eq!(app.recent_files.len(), 10);
    assert_eq!(app.recent_files[0], "f11");
    app.push_recent("f5".to_string());
    assert_eq!(app.recent_files[0], "f5");
    assert_eq!(app.recent_files.iter().filter(|p| *p == "f5").count(), 1);
    assert_eq!(app.recent_files.len(), 10);
    assert_eq!(app.recent_files[1], "f11");
}

#[test]
fn opening_a_document_resets_navigation() {
    let mut app = app_with("# A\n# B\n");
    app.select_toc_entry(1);
    assert_eq!(app.pending_scroll, Some(2));
    let doc = Document::from_source("text".to_string(), "/d");
    app.open_document("/d/g.md".to_string(), doc);
    assert_eq!(app.active_toc_idx, None);
    assert_eq!(app.pending_scroll, None);
    assert_eq!(app.last_file.as_deref(), Some("/d/g.md"));
    assert_eq!(app.recent_files, vec!["/d/g.md".to_string(), "/d/f.md".to_string()]);
    assert_eq!(app.word_count(), 1);
}

#[test]
fn anchors_jump_to_their_heading() {
    let mut app = app_with("# Intro\n## Error Handling\n");
    app.sidebar_tab = SidebarTab::FileTree;
    app.activate_toc_for_anchor("error-handling");
    assert_eq!(app.active_toc_idx, Some(1));
    assert_eq!(app.pending_scroll, Some(2));
    assert_eq!(app.sidebar_tab, SidebarTab::Outline);
    app.activate_toc_for_anchor("missing");
    assert_eq!(app.active_toc_idx, Some(1));
}

#[test]
fn toggles_and_commands() {
    let mut app = app_with("x");
    app.toggle_search();
    assert!(app.search_open);
    app.search_query = "x".to_string();
    app.run_search();
    app.toggle_search();
    assert!(!app.search_open);
    assert!(app.search_results.is_empty());
    app.cmd_palette.query = "zoom".to_string();
    app.toggle_command_palette();
    assert!(app.cmd_palette.open);
    assert!(app.cmd_palette.query.is_empty());
    app.toggle_command_palette();
    assert!(!app.cmd_palette.open);
    assert!(app.apply_command(Command::ToggleTheme));
    assert!(!app.dark_mode);
    assert!(app.apply_command(Command::ShowFiles));
    assert_eq!(app.sidebar_tab, SidebarTab::FileTree);
    assert!(app.apply_command(Command::ToggleSidebar));
    assert!(!app.sidebar_open);
    assert!(!app.apply_command(Command::ZoomIn));
    app.close_search();
    assert!(app.search_query.is_empty());
}

#[test]
fn palette_filter_is_case_insensitive() {
    let shown: Vec<&str> = all_commands()
        .into_iter()
        .map(command_label)
        .filter(|l| command_matches(l, "ZOOM"))
        .collect();
    assert_eq!(shown, vec!["Zoom In", "Zoom Out", "Reset Zoom"]);
    assert!(command_matches("Open File", ""));
    assert!(!command_matches("Open File", "folder"));
}

#[test]
fn reading_time_and_speech_messages() {
    assert_eq!(read_minutes(0), 1);
    assert_eq!(read_minutes(450), 2);
    assert_eq!(speech_result_message(&Ok(SpeechOutcome::Finished)), "Finished reading aloud");
    assert_eq!(speech_result_message(&Ok(SpeechOutcome::Stopped)), "Stopped reading aloud");
    assert_eq!(
        speech_result_message(&Err("boom".to_string())),
        "Text to speech error: boom"
    );
}

#[test]
fn command_line_requests() {
    let args = |v: &[&str]| v.iter().map(|s| s.to_string()).collect::<Vec<_>>();
    assert!(matches!(classify_args(&args(&[])), ArgRequest::Launch(LaunchArg::NoArg)));
    assert!(matches!(classify_args(&args(&["--help", "x"])), ArgRequest::Help));
    assert!(matches!(classify_args(&args(&["-V"])), ArgRequest::Version));
    match classify_args(&args(&["a.md", "b.md"])) {
        ArgRequest::Launch(LaunchArg::Error(m)) => {
            assert_eq!(m, "Too many arguments. Usage: md-reader [FILE|DIR]")
        }
        other => panic!("{other:?}"),
    }
    assert!(matches!(classify_args(&args(&["a.md"])), ArgRequest::Open(p) if p == "a.md"));
}

#[test]
fn command_line_paths() {
    assert!(matches!(
        classify_path("/x/a.md".into(), "/x/a.md", PathKind::File, "md"),
        LaunchArg::File(p) if p == "/x/a.md"
    ));
    assert!(matches!(
        classify_path("/x/a.png".into(), "/x/a.png", PathKind::File, "png"),
        LaunchArg::Error(m) if m == "Not a Markdown file: /x/a.png"
    ));
    assert!(matches!(
        classify_path("/x".into(), "/x", PathKind::Dir, ""),
        LaunchArg::Dir(p) if p == "/x"
    ));
    assert!(matches!(
        classify_path("/nope".into(), "/nope", PathKind::Missing, ""),
        LaunchArg::Error(m) if m == "Path not found: /nope"
    ));
    assert!(is_markdown_extension("markdown"));
    assert!(is_markdown_extension("txt"));
    assert!(!is_markdown_extension("MD"));
}

#[test]
fn empty_document_has_no_outline_and_no_words() {
    let app = app_with("");
    let doc = app.document.as_ref().unwrap();
    assert!(doc.toc.is_empty());
    assert!(doc.frontmatter.is_empty());
    assert_eq!(doc.display_content, "");
    assert_eq!(doc.section_ranges, vec![(0, 0)]);
    assert_eq!(app.word_count(), 0);
    assert_eq!(read_minutes(app.word_count()), 1);
}

#[test]
fn only_hash_links_stay_in_the_document() {
    assert_eq!(md_reader::app::internal_anchor("#lists"), Some("lists".to_string()));
    assert_eq!(md_reader::app::internal_anchor("#"), Some(String::new()));
    assert_eq!(md_reader::app::internal_anchor("https://example.com#x"), None);
    assert_eq!(md_reader::app::internal_anchor(""), None);
}

#[test]
fn reloads_are_debounced_and_status_expires() {
    assert!(!md_reader::app::reload_due(0));
    assert!(!md_reader::app::reload_due(300));
    assert!(md_reader::app::reload_due(301));
    assert!(!md_reader::app::status_expired(4));
    assert!(md_reader::app::status_expired(5));
}

#[test]
fn reloading_keeps_navigation_and_reading_aloud_frees_the_reader() {
    let mut app = app_with("# A\n# B\n");
    app.select_toc_entry(1);
    app.reload_document(Document::from_source("# A\n# B\nmore".to_string(), "/d"));
    assert_eq!(app.active_toc_idx, Some(1));
    assert_eq!(app.pending_scroll, Some(2));
    assert_eq!(app.word_count(), 5);
    app.start_read_aloud();
    assert!(app.tts_busy);
    assert!(matches!(app.begin_read_aloud(), md_reader::app::ReadAloudStart::Busy));
    let m = app.finish_read_aloud(&Err("no device".to_string()));
    assert!(!app.tts_busy);
    assert_eq!(m, "Text to speech error: no device");
    let m = app.finish_read_aloud(&Ok(SpeechOutcome::Stopped));
    assert_eq!(m, "Stopped reading aloud");
}

#[test]
fn view_toggles_and_scroll_requests() {
    let mut app = app_with("# A\n# B\n");
    let dark = app.dark_mode;
    app.toggle_theme();
    assert_eq!(app.dark_mode, !dark);
    let open = app.sidebar_open;
    app.toggle_sidebar();
    assert_eq!(app.sidebar_open, !open);
    app.select_sidebar_tab(SidebarTab::FileTree);
    assert_eq!(app.sidebar_tab, SidebarTab::FileTree);
    app.toggle_command_palette();
    app.close_command_palette();
    assert!(!app.cmd_palette.open);
    app.toggle_frontmatter();
    assert!(app.frontmatter_expanded);
    app.select_toc_entry(0);
    assert!(!app.scroll_due(0));
    assert!(app.scroll_due(1));
    assert!(!app.scroll_due(1));
    assert_eq!(app.pending_scroll, None);
}
