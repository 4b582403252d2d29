use md_reader::tts::{markdown_to_speech_text, speech_chunks};

#[test]
fn converts_markdown_to_readable_speech_text() {
    let markdown = r#"---
title: Hidden
---
# Chapter 04 — Error Handling

> “Handle errors explicitly.”

- Read [the docs](https://example.com)
- ![diagram](img/flow.png)

```rust
panic!("skip code");
```
"#;

    let text = markdown_to_speech_text(markdown);

    assert_eq!(
        text,
        "Chapter 04 — Error Handling “Handle errors explicitly.” Read the docs"
    );
}

#[test]
fn splits_long_speech_text_into_bounded_chunks() {
    let text = (0..300)
        .map(|i| format!("word{i}"))
        .collect::<Vec<_>>()
        .join(" ");

    let chunks = speech_chunks(&text, 120);

    assert!(chunks.len() > 1);
    assert!(chunks.iter().all(|chunk| chunk.len() <= 120));
    assert_eq!(chunks.join(" "), text);
}
