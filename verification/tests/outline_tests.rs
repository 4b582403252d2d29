use md_reader::outline::{extract_toc, slugify};

#[test]
fn toc_lists_headings_with_levels_and_offsets() {
    let md = "intro\n# One\ntext\n## Two **bold**\n###### Six\n####### Seven\n";
    let toc = extract_toc(md);
    assert_eq!(toc.len(), 3);
    assert_eq!(toc[0].level, 1);
    assert_eq!(toc[0].title, "One");
    assert_eq!(toc[0].anchor, "one");
    assert_eq!(toc[0].byte_offset, 6);
    assert_eq!(toc[1].level, 2);
    assert_eq!(toc[1].title, "Two bold");
    assert_eq!(toc[1].anchor, "two-bold");
    assert_eq!(toc[1].byte_offset, 17);
    assert_eq!(toc[2].level, 6);
    assert_eq!(toc[2].title, "Six");
}

#[test]
fn toc_skips_fenced_code_and_empty_headings() {
    let md = "```\n# not a heading\n```\n~~~\n## nor this\n~~~\n#\n#   \n# Real\n";
    let toc = extract_toc(md);
    assert_eq!(toc.len(), 1);
    assert_eq!(toc[0].title, "Real");
}

#[test]
fn toc_offsets_count_bytes_and_carriage_returns() {
    let md = "é\r\n# A\r\n# B";
    let toc = extract_toc(md);
    assert_eq!(toc.len(), 2);
    assert_eq!(toc[0].title, "A");
    assert_eq!(toc[0].byte_offset, 4);
    assert_eq!(toc[1].byte_offset, 9);
    assert!(toc[0].byte_offset < toc[1].byte_offset);
    assert!(toc[1].byte_offset <= md.len());
}

#[test]
fn toc_title_trims_hashes_and_spaces() {
    let toc = extract_toc("## Title ##\n");
    assert_eq!(toc[0].title, "Title");
    assert_eq!(toc[0].anchor, "title");
}

#[test]
fn toc_titles_are_plain_text() {
    let toc = extract_toc("# **Bold** `code`\n## __under__ *em* ##\n");
    assert_eq!(toc[0].title, "Bold code");
    assert_eq!(toc[0].anchor, "bold-code");
    assert_eq!(toc[1].title, "under em");
    assert_eq!(toc[1].anchor, "__under__-em");
}

#[test]
fn slugify_follows_github_style() {
    assert_eq!(slugify("snake_case"), "snake_case");
    assert_eq!(slugify("A & B"), "a--b");
    assert_eq!(slugify("Hello, World!"), "hello-world");
    assert_eq!(slugify("snake_case and-dash"), "snake_case-and-dash");
    assert_eq!(slugify("Chapter 04 — Error Handling"), "chapter-04--error-handling");
    assert_eq!(slugify("Ünïcode STRASSE"), "ünïcode-strasse");
    assert_eq!(slugify("!!!"), "");
    assert_eq!(slugify(""), "");
}

#[test]
fn anchor_of_an_anchor_is_itself() {
    for s in ["Hello, World!", "A & B", "snake_case and-dash", "x?? y", "Done."] {
        let a = slugify(s);
        assert_eq!(slugify(&a), a);
    }
}
