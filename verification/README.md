# md_reader

A lightweight Markdown reader desktop app (egui) whose document logic is
written in Verus and proved correct against its specifications.

## Layout

- `src/` — the verified library.
  - `text.rs`: strings as `Seq<char>`, UTF-8 byte lengths, `trim`,
    `lines`, `split('\n')` and `split_whitespace` as spec functions, with
    executable counterparts that return ranges.
  - `outline.rs`: table of contents (headings, GitHub-style anchors, byte
    offsets of heading lines).
  - `document.rs`: YAML front matter, relative image paths made absolute,
    section ranges, and the `Document` built from a file's text.
  - `tts.rs`: the text read aloud, its chunks for the synthesizer and the
    decisions of the speaking loop.
  - `cli.rs`: what the command line asks for.
  - `listing.rs`: which files of a folder the file tree shows, in what order.
  - `paths.rs`: paths compared by their components, as `std::path::Path`
    compares them, and the depth of a file-tree entry.
  - `app.rs`: the reader's state and how user actions change it (search,
    recent files, outline navigation, command palette, start-up steps).
- `app/` — the desktop program around the library: window, drawing, file
  and folder access, file watching, dialogs and audio.
- `tests/` — tests of the library on concrete inputs.

## Dependencies of the desktop program

Besides the egui crates and `notify`, `app/` uses `rfd` (file dialogs),
`rodio` (audio output) and `piper-rs` (speech synthesis). These three are
not listed in `Cargo.toml`: with them the dependency tree grows past 400
packages, more than the project allows for its dependencies, so they are
added only when building the desktop program. The library and its tests do
not use them.

## Build & run

```bash
cargo run -- path/to/file.md
```
