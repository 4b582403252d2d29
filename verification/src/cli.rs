//! Command-line arguments: what the program is asked to open.

use vstd::prelude::*;

use crate::text::{chars_equal, chars_of, push_range};

verus! {

/// What the program was launched with.
#[derive(Debug)]
pub enum LaunchArg {
    NoArg,
    File(String),
    Dir(String),
    Error(String),
}

impl Default for LaunchArg {
    fn default() -> (r: Self)
        ensures
            r is NoArg,
    {
        LaunchArg::NoArg
    }
}

/// What the arguments ask for, before the file system is consulted.
#[derive(Debug)]
pub enum ArgRequest {
    /// Print the usage text and exit successfully.
    Help,
    /// Print the version and exit successfully.
    Version,
    /// Launch with this argument.
    Launch(LaunchArg),
    /// Open this path, resolved against the working directory.
    Open(String),
}

/// What a path turned out to be on disk.
#[derive(Debug, Clone, Copy, PartialEq, Eq, Structural)]
pub enum PathKind {
    File,
    Dir,
    Missing,
}

pub const TOO_MANY_ARGS: &'static str = "Too many arguments. Usage: md-reader [FILE|DIR]";

pub const NOT_MARKDOWN: &'static str = "Not a Markdown file: ";

pub const NOT_FOUND: &'static str = "Path not found: ";

pub open spec fn is_help_flag(a: Seq<char>) -> bool {
    a == seq!['-', '-', 'h', 'e', 'l', 'p'] || a == seq!['-', 'h']
}

pub open spec fn is_version_flag(a: Seq<char>) -> bool {
    a == seq!['-', '-', 'v', 'e', 'r', 's', 'i', 'o', 'n'] || a == seq!['-', 'V']
}

/// The extensions of files the reader opens: `md`, `markdown` and `txt`.
pub open spec fn is_markdown_ext(e: Seq<char>) -> bool {
    e == seq!['m', 'd'] || e == seq!['m', 'a', 'r', 'k', 'd', 'o', 'w', 'n'] || e == seq![
        't',
        'x',
        't',
    ]
}

/// Whether `ext` is the extension of a Markdown or text file.
pub fn is_markdown_extension(ext: &str) -> (b: bool)
    ensures
        b == is_markdown_ext(ext@),
{
    let v = chars_of(ext);
    let md = vec!['m', 'd'];
    let markdown = vec!['m', 'a', 'r', 'k', 'd', 'o', 'w', 'n'];
    let txt = vec!['t', 'x', 't'];
    assert(md@ =~= seq!['m', 'd']);
    assert(markdown@ =~= seq!['m', 'a', 'r', 'k', 'd', 'o', 'w', 'n']);
    assert(txt@ =~= seq!['t', 'x', 't']);
    chars_equal(&v, &md) || chars_equal(&v, &markdown) || chars_equal(&v, &txt)
}

/// `prefix` followed by `rest`.
fn concat(prefix: &str, rest: &str) -> (s: String)
    ensures
        s@ == prefix@ + rest@,
{
    let mut s = prefix.to_owned();
    let v = chars_of(rest);
    push_range(&mut s, &v, 0, v.len());
    assert(v@.subrange(0, v@.len() as int) =~= v@);
    s
}

/// What the arguments after the program name ask for. A help or version flag
/// in first place wins over extra arguments.
pub fn classify_args(args: &Vec<String>) -> (r: ArgRequest)
    ensures
        args@.len() == 0 ==> r == ArgRequest::Launch(LaunchArg::NoArg),
        args@.len() > 0 && is_help_flag(args@[0]@) ==> r == ArgRequest::Help,
        args@.len() > 0 && !is_help_flag(args@[0]@) && is_version_flag(args@[0]@) ==> r
            == ArgRequest::Version,
        args@.len() > 1 && !is_help_flag(args@[0]@) && !is_version_flag(args@[0]@) ==> (r matches ArgRequest::Launch(LaunchArg::Error(m)) && m@ == TOO_MANY_ARGS@),
        args@.len() == 1 && !is_help_flag(args@[0]@) && !is_version_flag(args@[0]@) ==> (r matches ArgRequest::Open(p) && p@ == args@[0]@),
{
    if args.len() == 0 {
        return ArgRequest::Launch(LaunchArg::NoArg);
    }
    let first = chars_of(args[0].as_str());
    let help = vec!['-', '-', 'h', 'e', 'l', 'p'];
    let h = vec!['-', 'h'];
    let version = vec!['-', '-', 'v', 'e', 'r', 's', 'i', 'o', 'n'];
    let v = vec!['-', 'V'];
    assert(help@ =~= seq!['-', '-', 'h', 'e', 'l', 'p']);
    assert(h@ =~= seq!['-', 'h']);
    assert(version@ =~= seq!['-', '-', 'v', 'e', 'r', 's', 'i', 'o', 'n']);
    assert(v@ =~= seq!['-', 'V']);
    if chars_equal(&first, &help) || chars_equal(&first, &h) {
        return ArgRequest::Help;
    }
    if chars_equal(&first, &version) || chars_equal(&first, &v) {
        return ArgRequest::Version;
    }
    if args.len() > 1 {
        return ArgRequest::Launch(LaunchArg::Error(TOO_MANY_ARGS.to_owned()));
    }
    ArgRequest::Open(args[0].clone())
}

/// What to launch with for `path`, given what it is on disk and its
/// extension; `display` is the path as shown in messages.
pub fn classify_path(path: String, display: &str, kind: PathKind, ext: &str) -> (r: LaunchArg)
    ensures
        kind == PathKind::File && is_markdown_ext(ext@) ==> r == LaunchArg::File(path),
        kind == PathKind::File && !is_markdown_ext(ext@) ==> (r matches LaunchArg::Error(m) && m@
            == NOT_MARKDOWN@ + display@),
        kind == PathKind::Dir ==> r == LaunchArg::Dir(path),
        kind == PathKind::Missing ==> (r matches LaunchArg::Error(m) && m@ == NOT_FOUND@
            + display@),
{
    match kind {
        PathKind::File => {
            if is_markdown_extension(ext) {
                LaunchArg::File(path)
            } else {
                LaunchArg::Error(concat(NOT_MARKDOWN, display))
            }
        },
        PathKind::Dir => LaunchArg::Dir(path),
        PathKind::Missing => LaunchArg::Error(concat(NOT_FOUND, display)),
    }
}

} // verus!
