use md_reader::document::resolve_image_paths;
use md_reader::outline::extract_toc;

#[test]
fn image_path_resolution_preserves_utf8_text_for_toc() {
    let markdown =
        "# Chapter 04 — Error Handling\n\n![diagram](images/flow.png)\n\n> “quoted”\n";
    let display = resolve_image_paths(markdown, "/docs");

    assert!(display.contains("# Chapter 04 — Error Handling"));
    assert!(display.contains("> “quoted”"));

    let toc = extract_toc(&display);
    assert_eq!(toc[0].title, "Chapter 04 — Error Handling");
}
