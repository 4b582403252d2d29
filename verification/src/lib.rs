//! Verified core of a Markdown reader: outline extraction, front-matter
//! parsing, image-path resolution, section splitting and the text
//! preparation used for reading a document aloud.

pub mod text;
pub mod outline;
pub mod document;
pub mod tts;
pub mod cli;
pub mod app;
pub mod listing;
pub mod paths;
