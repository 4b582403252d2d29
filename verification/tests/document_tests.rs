use md_reader::document::{
    build_section_ranges, extract_frontmatter, resolve_image_paths,
    Document,
};
use md_reader::outline::extract_toc;

#[test]
fn resolves_relative_image_with_title() {
    let out = resolve_image_paths("a ![x](img/p.png \"Title\") b", "/base");
    assert_eq!(out, "a ![x](file:///base/img/p.png \"Title\") b");
}

#[test]
fn leaves_urls_absolute_paths_and_anchors() {
    let src = "![a](http://x/y.png) ![b](https://x) ![c](/abs.png) ![d](#frag) ![e](data:xyz) ![f](file:///z) ![g]()";
    assert_eq!(resolve_image_paths(src, "/base"), src);
}

#[test]
fn text_without_images_is_unchanged() {
    let src = "# Title\n[link](rel.md) and ! [not] (image)\n“quotes” — dash";
    assert_eq!(resolve_image_paths(src, "/docs"), src);
}

#[test]
fn image_path_join_respects_base_separator() {
    assert_eq!(resolve_image_paths("![a](p.png)", "/d/"), "![a](file:///d/p.png)");
    assert_eq!(resolve_image_paths("![a](p.png)", ""), "![a](file://p.png)");
}

#[test]
fn image_with_nested_parentheses_and_unclosed_link() {
    assert_eq!(
        resolve_image_paths("![a](img(1).png)", "/b"),
        "![a](file:///b/img(1).png)"
    );
    let unclosed = "![a](img.png\n)";
    assert_eq!(resolve_image_paths(unclosed, "/b"), unclosed);
}

#[test]
fn frontmatter_entries_and_body() {
    let src = "---\ntitle: \"Hello\"\n# comment\nauthor: 'Me'\nnot yaml\ntags: a: b\n---\nBody\n";
    let (entries, body) = extract_frontmatter(src);
    assert_eq!(entries.len(), 3);
    assert_eq!(entries[0].key, "title");
    assert_eq!(entries[0].value, "Hello");
    assert_eq!(entries[1].key, "author");
    assert_eq!(entries[1].value, "Me");
    assert_eq!(entries[2].key, "tags");
    assert_eq!(entries[2].value, "a: b");
    assert_eq!(body, "Body\n");
}

#[test]
fn frontmatter_absent_or_unclosed() {
    let (e, body) = extract_frontmatter("\u{feff}# Doc\n");
    assert!(e.is_empty());
    assert_eq!(body, "# Doc\n");
    let (e, body) = extract_frontmatter("---\na: b\nno close\n");
    assert!(e.is_empty());
    assert_eq!(body, "---\na: b\nno close\n");
    let (e, body) = extract_frontmatter("---");
    assert!(e.is_empty());
    assert_eq!(body, "---");
}

#[test]
fn frontmatter_closed_by_dots_at_end() {
    let (e, body) = extract_frontmatter("---\nk: v\n...");
    assert_eq!(e.len(), 1);
    assert_eq!(e[0].value, "v");
    assert_eq!(body, "");
}

#[test]
fn frontmatter_with_crlf_is_removed_whole() {
    let (e, body) = extract_frontmatter("---\r\na: 1\r\n---\r\nbody");
    assert_eq!(e.len(), 1);
    assert_eq!(e[0].key, "a");
    assert_eq!(e[0].value, "1");
    assert_eq!(body, "body");
    let (e, body) = extract_frontmatter("---\na\r\nb\r\né\n---\nx");
    assert!(e.is_empty());
    assert_eq!(body, "x");
    let (e, body) = extract_frontmatter("---\r\nk: v\r\n...\r\n");
    assert_eq!(e[0].value, "v");
    assert_eq!(body, "");
}

#[test]
fn section_ranges_cover_the_text() {
    let content = "pre\n# A\nx\n## B\ny";
    let toc = extract_toc(content);
    let ranges = build_section_ranges(content, &toc);
    assert_eq!(ranges, vec![(0, 4), (4, 10), (10, content.len())]);
    let none = build_section_ranges("abc", &[]);
    assert_eq!(none, vec![(0, 3)]);
}

#[test]
fn section_ranges_clamp_offsets() {
    let mut toc = extract_toc("# A\n# B\n");
    toc[1].byte_offset = 100;
    let ranges = build_section_ranges("# A\n# B\n", &toc);
    assert_eq!(ranges, vec![(0, 0), (0, 8), (8, 8)]);
}

#[test]
fn document_from_source_builds_everything() {
    let raw = "---\ntitle: T\n---\n# Head\n![i](a.png)\n## Sub\nend";
    let doc = Document::from_source(raw.to_string(), "/docs");
    assert_eq!(doc.content, raw);
    assert_eq!(doc.frontmatter.len(), 1);
    assert_eq!(doc.display_content, "# Head\n![i](file:///docs/a.png)\n## Sub\nend");
    assert_eq!(doc.toc.len(), 2);
    assert_eq!(doc.section_ranges.len(), 3);
    assert_eq!(doc.section_ranges[0], (0, 0));
    assert_eq!(doc.section_ranges[2].1, doc.display_content.len());
    for w in doc.section_ranges.windows(2) {
        assert_eq!(w[0].1, w[1].0);
    }
    for (i, e) in doc.toc.iter().enumerate() {
        assert_eq!(doc.section_ranges[i + 1].0, e.byte_offset);
        let section = &doc.display_content[doc.section_ranges[i + 1].0..doc.section_ranges[i + 1].1];
        assert!(section.starts_with('#'));
    }
}

#[test]
fn resolving_twice_changes_nothing() {
    for src in [
        "# T\n![a](img/x.png \"t\") after\n",
        "![a](b(c).png)",
        "no images here",
        "![a](https://e.com/x.png)",
    ] {
        let once = resolve_image_paths(src, "/docs/d");
        assert_eq!(resolve_image_paths(&once, "/docs/d"), once);
    }
}
