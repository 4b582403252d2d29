//! Table-of-contents extraction: headings, their titles, GitHub-style
//! anchors and the byte offsets of their lines.

use vstd::prelude::*;
use vstd::utf8::is_ascii_chars;

use crate::text::{
    push_char, byte_len, char_boundary, lemma_split_nl_pieces, piece_at, lemma_pieces_bytes_first, lemma_pieces_bytes_nonneg, lemma_split_nl_bytes, pieces_bytes, chars_of, has_prefix, lemma_byte_len_subrange, lemma_offset_after_newline, range_byte_len, range_text,
    skip_end, skip_start, split_nl, split_nl_ranges, string_of, strip_both, strip_end,
    strip_range, strip_start, trim, trim_range, CharSet,
};

verus! {

// ── Trusted character classification (std) ──────────────────────────────────

/// What `char::is_alphanumeric` answers for `c`.
pub uninterp spec fn alphanumeric(c: char) -> bool;

/// The first character that `char::to_lowercase` yields for `c`.
pub uninterp spec fn lowercase_first(c: char) -> char;

pub open spec fn is_ascii_alnum(c: char) -> bool {
    ('a' <= c <= 'z') || ('A' <= c <= 'Z') || ('0' <= c <= '9')
}

pub open spec fn ascii_lower(c: char) -> char {
    if 'A' <= c <= 'Z' {
        ((c as u32) + 32) as char
    } else {
        c
    }
}

/// `char::is_alphanumeric`. Its result is named by `alphanumeric`; for ASCII
/// std's source answers `true` exactly for `a-z`, `A-Z` and `0-9`.
#[verifier::external_body]
fn char_is_alphanumeric(c: char) -> (b: bool)
    ensures
        b == alphanumeric(c),
        (c as u32) < 128 ==> b == is_ascii_alnum(c),
{
    c.is_alphanumeric()
}

/// The first character of `char::to_lowercase`, which always yields at least
/// one character. Its result is named by `lowercase_first`; for ASCII std's
/// source maps `A-Z` to `a-z` and keeps every other character.
#[verifier::external_body]
fn char_to_lowercase_first(c: char) -> (l: char)
    ensures
        l == lowercase_first(c),
        (c as u32) < 128 ==> l == ascii_lower(c),
{
    c.to_lowercase().next().unwrap_or(c)
}

// ── Table of contents ────────────────────────────────────────────────────────

/// One heading of a document.
#[derive(Debug, Clone)]
pub struct TocEntry {
    pub level: u8,
    pub title: String,
    pub anchor: String,
    /// Byte offset of the heading line within the source string passed to
    /// `extract_toc`.  Used to split the document into per-heading sections
    /// for scroll-to anchors.
    pub byte_offset: usize,
}

/// A heading as the contracts speak of it.
pub struct TocItem {
    pub level: nat,
    pub title: Seq<char>,
    pub anchor: Seq<char>,
    pub offset: int,
}

impl TocEntry {
    pub open spec fn item(&self) -> TocItem {
        TocItem {
            level: self.level as nat,
            title: self.title@,
            anchor: self.anchor@,
            offset: self.byte_offset as int,
        }
    }
}

pub open spec fn toc_items(v: Seq<TocEntry>) -> Seq<TocItem> {
    v.map_values(|e: TocEntry| e.item())
}

/// A line that opens or closes a fenced code block.
pub open spec fn is_fence(line: Seq<char>) -> bool {
    seq!['`', '`', '`'].is_prefix_of(line) || seq!['~', '~', '~'].is_prefix_of(line)
}

/// Number of `#` characters that start `line`.
pub open spec fn leading_hashes(line: Seq<char>) -> int {
    line.len() - strip_start(line, CharSet::One('#')).len()
}

/// The heading a line holds: its level and the text after the `#`s, trimmed.
pub open spec fn heading_of(line: Seq<char>) -> Option<(int, Seq<char>)> {
    let level = leading_hashes(line);
    let rest = trim(line.subrange(level, line.len() as int));
    if 1 <= level <= 6 && rest.len() > 0 {
        Some((level, rest))
    } else {
        None
    }
}

/// What one character of heading text becomes in its anchor: alphanumerics
/// lower-cased, `_` and `-` kept, a space turned into `-`, anything else
/// dropped.
pub open spec fn slug_char(c: char) -> Seq<char> {
    if alphanumeric(c) {
        seq![lowercase_first(c)]
    } else if c == '_' || c == '-' {
        seq![c]
    } else if c == ' ' {
        seq!['-']
    } else {
        Seq::empty()
    }
}

/// GitHub-compatible heading anchor: each character replaced as `slug_char`
/// says.
pub open spec fn slug(s: Seq<char>) -> Seq<char>
    decreases s.len(),
{
    if s.len() == 0 {
        Seq::empty()
    } else {
        slug(s.drop_last()) + slug_char(s.last())
    }
}

/// `slug_char` with the ASCII character classes.
pub open spec fn slug_char_ascii(c: char) -> Seq<char> {
    if is_ascii_alnum(c) {
        seq![ascii_lower(c)]
    } else if c == '_' || c == '-' {
        seq![c]
    } else if c == ' ' {
        seq!['-']
    } else {
        Seq::empty()
    }
}

/// `slug` with the ASCII character classes, which is what `slug` is on
/// ASCII text.
pub open spec fn slug_ascii(s: Seq<char>) -> Seq<char>
    decreases s.len(),
{
    if s.len() == 0 {
        Seq::empty()
    } else {
        slug_ascii(s.drop_last()) + slug_char_ascii(s.last())
    }
}

/// Characters of inline emphasis and code that titles leave out.
pub open spec fn is_title_markup(c: char) -> bool {
    c == '*' || c == '_' || c == '`'
}

/// `s` without `*`, `_` and backticks.
pub open spec fn without_title_markup(s: Seq<char>) -> Seq<char>
    decreases s.len(),
{
    if s.len() == 0 {
        Seq::empty()
    } else if is_title_markup(s.last()) {
        without_title_markup(s.drop_last())
    } else {
        without_title_markup(s.drop_last()).push(s.last())
    }
}

/// The entry a heading line gives at byte offset `off`, its text after the
/// `#`s being `rest`: the title is the plain text (markup and closing `#`s
/// removed), the anchor is made from the text without closing `#`s. With
/// `ascii`, the anchor uses the ASCII character classes.
pub open spec fn toc_item_of(level: int, rest: Seq<char>, off: int, ascii: bool) -> TocItem {
    let text = strip_both(rest, CharSet::Two('#', ' '));
    TocItem {
        level: level as nat,
        title: strip_both(without_title_markup(rest), CharSet::Two('#', ' ')),
        anchor: if ascii {
            slug_ascii(text)
        } else {
            slug(text)
        },
        offset: off,
    }
}

/// What one piece of `split('\n')` starting at byte `off` contributes, and
/// whether a fence is open after it.
pub open spec fn toc_step(raw: Seq<char>, off: int, in_code: bool, ascii: bool) -> (
    Seq<TocItem>,
    bool,
) {
    let line = strip_end(raw, CharSet::One('\r'));
    if is_fence(line) {
        (Seq::empty(), !in_code)
    } else if in_code {
        (Seq::empty(), in_code)
    } else {
        match heading_of(line) {
            Some((level, text)) => (seq![toc_item_of(level, text, off, ascii)], in_code),
            None => (Seq::empty(), in_code),
        }
    }
}

/// Headings among `pieces` (the pieces of `split('\n')`), the first piece
/// starting at byte `off`, with `in_code` telling whether a fence is open.
pub open spec fn toc_from(pieces: Seq<Seq<char>>, off: int, in_code: bool, ascii: bool) -> Seq<
    TocItem,
>
    decreases pieces.len(),
{
    if pieces.len() == 0 {
        Seq::empty()
    } else {
        let (items, in_code2) = toc_step(pieces[0], off, in_code, ascii);
        items + toc_from(pieces.drop_first(), off + byte_len(pieces[0]) + 1, in_code2, ascii)
    }
}

/// The table of contents of a Markdown source.
pub open spec fn toc_of(markdown: Seq<char>) -> Seq<TocItem> {
    toc_from(split_nl(markdown), 0, false, false)
}

/// The table of contents of a Markdown source with anchors made by the ASCII
/// character classes, which is what `toc_of` is on ASCII text.
pub open spec fn toc_of_ascii(markdown: Seq<char>) -> Seq<TocItem> {
    toc_from(split_nl(markdown), 0, false, true)
}

/// The anchor of `v[lo..hi]`.
fn slugify_range(v: &Vec<char>, lo: usize, hi: usize) -> (s: String)
    requires
        lo <= hi <= v.len(),
    ensures
        s@ == slug(v@.subrange(lo as int, hi as int)),
        is_ascii_chars(v@.subrange(lo as int, hi as int)) ==> s@ == slug_ascii(
            v@.subrange(lo as int, hi as int),
        ),
{
    let mut r = String::new();
    let mut i = lo;
    while i < hi
        invariant
            lo <= i <= hi <= v.len(),
            r@ == slug(v@.subrange(lo as int, i as int)),
            is_ascii_chars(v@.subrange(lo as int, i as int)) ==> r@ == slug_ascii(
                v@.subrange(lo as int, i as int),
            ),
        decreases hi - i,
    {
        let ghost pre = v@.subrange(lo as int, i as int);
        let ghost pre2 = v@.subrange(lo as int, i + 1);
        let ghost before = r@;
        assert(pre2.drop_last() =~= pre);
        assert(pre2.last() == v@[i as int]);
        proof {
            if is_ascii_chars(pre2) {
                assert forall|j: int| 0 <= j < pre.len() implies '\0' <= #[trigger] pre[j]
                    <= '\u{7f}' by {
                    assert(pre[j] == pre2[j]);
                }
                assert(pre2[pre2.len() - 1] == v@[i as int]);
            }
        }
        let c = v[i];
        if char_is_alphanumeric(c) {
            push_char(&mut r, char_to_lowercase_first(c));
        } else if c == '_' || c == '-' {
            push_char(&mut r, c);
        } else if c == ' ' {
            push_char(&mut r, '-');
        }
        assert(r@ =~= before + slug_char(c));
        proof {
            if is_ascii_chars(pre2) {
                assert(r@ =~= before + slug_char_ascii(c));
            }
        }
        i += 1;
    }
    r
}

/// GitHub-compatible heading anchor generation: alphanumerics lower-cased,
/// `_` and `-` kept, each space turned into `-`, other characters dropped.
pub fn slugify(text: &str) -> (s: String)
    ensures
        s@ == slug(text@),
        is_ascii_chars(text@) ==> s@ == slug_ascii(text@),
{
    let v = chars_of(text);
    assert(v@.subrange(0, v@.len() as int) =~= v@);
    slugify_range(&v, 0, v.len())
}

fn is_fence_range(v: &Vec<char>, lo: usize, hi: usize) -> (b: bool)
    requires
        lo <= hi <= v.len(),
    ensures
        b == is_fence(v@.subrange(lo as int, hi as int)),
{
    let ticks = vec!['`', '`', '`'];
    let tildes = vec!['~', '~', '~'];
    assert(ticks@ =~= seq!['`', '`', '`']);
    assert(tildes@ =~= seq!['~', '~', '~']);
    has_prefix(v, lo, hi, &ticks) || has_prefix(v, lo, hi, &tildes)
}

/// `v[lo..hi]` without `*`, `_` and backticks.
fn remove_title_markup(v: &Vec<char>, lo: usize, hi: usize) -> (out: Vec<char>)
    requires
        lo <= hi <= v.len(),
    ensures
        out@ == without_title_markup(v@.subrange(lo as int, hi as int)),
{
    let mut out: Vec<char> = Vec::new();
    let mut i = lo;
    while i < hi
        invariant
            lo <= i <= hi <= v.len(),
            out@ == without_title_markup(v@.subrange(lo as int, i as int)),
        decreases hi - i,
    {
        assert(v@.subrange(lo as int, i + 1).drop_last() =~= v@.subrange(lo as int, i as int));
        let c = v[i];
        if !(c == '*' || c == '_' || c == '`') {
            out.push(c);
        }
        i += 1;
    }
    out
}

proof fn lemma_ascii_subrange(s: Seq<char>, i: int, j: int)
    requires
        is_ascii_chars(s),
        0 <= i <= j <= s.len(),
    ensures
        is_ascii_chars(s.subrange(i, j)),
{
    assert forall|k: int| 0 <= k < j - i implies '\0' <= #[trigger] s.subrange(i, j)[k] <= '\u{7f}' by {
        assert(s.subrange(i, j)[k] == s[i + k]);
    }
}

/// The heading (if any) of the piece `v[a..b]` at byte `byte_pos`, and the
/// fence state after it.
fn toc_line(v: &Vec<char>, a: usize, b: usize, byte_pos: usize, in_code: bool) -> (r: (
    Option<TocEntry>,
    bool,
))
    requires
        a <= b <= v.len(),
    ensures
        ({
            let (items, c) = toc_step(
                v@.subrange(a as int, b as int),
                byte_pos as int,
                in_code,
                false,
            );
            &&& r.1 == c
            &&& match r.0 {
                Some(e) => items == seq![e.item()],
                None => items.len() == 0,
            }
        }),
        is_ascii_chars(v@.subrange(a as int, b as int)) ==> ({
            let (items, c) = toc_step(
                v@.subrange(a as int, b as int),
                byte_pos as int,
                in_code,
                true,
            );
            &&& r.1 == c
            &&& match r.0 {
                Some(e) => items == seq![e.item()],
                None => items.len() == 0,
            }
        }),
{
    let e = skip_end(v, a, b, CharSet::One('\r'));
    let ghost line = v@.subrange(a as int, e as int);
    if is_fence_range(v, a, e) {
        return (None, !in_code);
    }
    if in_code {
        return (None, in_code);
    }
    let h = skip_start(v, a, e, CharSet::One('#'));
    let level = h - a;
    proof {
        assert(leading_hashes(line) == level);
        assert(line.subrange(level as int, line.len() as int) =~= v@.subrange(h as int, e as int));
    }
    if level >= 1 && level <= 6 {
        let (ra, rb) = trim_range(v, h, e);
        if rb > ra {
            let (ta, tb) = strip_range(v, ra, rb, CharSet::Two('#', ' '));
            let plain = remove_title_markup(v, ra, rb);
            let (xa, xb) = strip_range(&plain, 0, plain.len(), CharSet::Two('#', ' '));
            assert(plain@.subrange(0, plain@.len() as int) =~= plain@);
            let anchor = slugify_range(v, ta, tb);
            let entry = TocEntry {
                level: level as u8,
                title: string_of(&plain, xa, xb),
                anchor,
                byte_offset: byte_pos,
            };
            assert(entry.item() == toc_item_of(
                level as int,
                v@.subrange(ra as int, rb as int),
                byte_pos as int,
                false,
            ));
            proof {
                if is_ascii_chars(v@.subrange(a as int, b as int)) {
                    assert(v@.subrange(ta as int, tb as int) =~= v@.subrange(a as int, b as int).subrange(
                        ta - a,
                        tb - a,
                    ));
                    lemma_ascii_subrange(v@.subrange(a as int, b as int), ta - a, tb - a);
                    assert(entry.item() == toc_item_of(
                        level as int,
                        v@.subrange(ra as int, rb as int),
                        byte_pos as int,
                        true,
                    ));
                }
            }
            return (Some(entry), in_code);
        }
    }
    (None, in_code)
}

pub fn extract_toc(markdown: &str) -> (entries: Vec<TocEntry>)
    ensures
        toc_items(entries@) == toc_of(markdown@),
        is_ascii_chars(markdown@) ==> toc_items(entries@) == toc_of_ascii(markdown@),
{
    let _ = crate::text::str_byte_len(markdown);
    let v = chars_of(markdown);
    let n = v.len();
    assert(v@.subrange(0, n as int) =~= v@);
    let pieces = split_nl_ranges(&v, 0, n);
    let ghost p = split_nl(v@);
    let mut entries: Vec<TocEntry> = Vec::new();
    let mut in_code = false;
    let mut byte_pos: usize = 0;
    let mut k: usize = 0;
    assert(p.subrange(0, p.len() as int) =~= p);
    assert(toc_items(entries@) + toc_of(v@) =~= toc_of(v@));
    assert(toc_items(entries@) + toc_of_ascii(v@) =~= toc_of_ascii(v@));
    assert(v@.subrange(0, 0) =~= Seq::<char>::empty());
    while k < pieces.len()
        invariant
            n == v@.len(),
            byte_len(v@) <= usize::MAX,
            pieces@.len() == p.len() >= 1,
            forall|j: int| 0 <= j < pieces@.len() ==> range_text(v@, #[trigger] pieces@[j]) == p[j],
            pieces@[0].0 == 0,
            forall|j: int| 0 <= j < pieces@.len() ==> 0 <= #[trigger] pieces@[j].0 <= pieces@[j].1 <= n,
            forall|j: int|
                0 <= j < pieces@.len() - 1 ==> #[trigger] pieces@[j + 1].0 == pieces@[j].1 + 1
                    && v@[pieces@[j].1 as int] == '\n',
            k <= pieces@.len(),
            k < pieces@.len() ==> byte_pos == byte_len(v@.subrange(0, pieces@[k as int].0 as int)),
            toc_items(entries@) + toc_from(p.subrange(k as int, p.len() as int), byte_pos as int, in_code, false)
                == toc_of(v@),
            is_ascii_chars(v@) ==> toc_items(entries@) + toc_from(
                p.subrange(k as int, p.len() as int),
                byte_pos as int,
                in_code,
                true,
            ) == toc_of_ascii(v@),
        decreases pieces.len() - k,
    {
        let (a, b) = pieces[k];
        let ghost rest = p.subrange(k as int, p.len() as int);
        let ghost rest2 = p.subrange(k + 1, p.len() as int);
        let ghost raw = v@.subrange(a as int, b as int);
        assert(rest[0] == p[k as int]);
        assert(rest.drop_first() =~= rest2);
        assert(range_text(v@, pieces@[k as int]) == p[k as int]);
        let ghost old_items = toc_items(entries@);
        let ghost spec_next = byte_pos + byte_len(raw) + 1;
        let mut next_pos = byte_pos;
        if k + 1 < pieces.len() {
            proof {
                assert(pieces@[k + 1].0 == b + 1);
                lemma_offset_after_newline(v@, a as int, b as int);
                lemma_byte_len_subrange(v@, 0, b + 1);
            }
            let w = range_byte_len(&v, a, b);
            next_pos = byte_pos + w + 1;
        }
        let (found, c) = toc_line(&v, a, b, byte_pos, in_code);
        match found {
            Some(entry) => {
                entries.push(entry);
                assert(toc_items(entries@) =~= old_items + seq![entry.item()]);
            },
            None => {
                assert(toc_items(entries@) =~= old_items);
            },
        }
        proof {
            if k + 1 == pieces.len() {
                assert(rest2 =~= Seq::<Seq<char>>::empty());
            }
            assert(toc_from(rest2, spec_next, c, false) == toc_from(rest2, next_pos as int, c, false));
            assert(toc_from(rest2, spec_next, c, true) == toc_from(rest2, next_pos as int, c, true));
            if is_ascii_chars(v@) {
                lemma_ascii_subrange(v@, a as int, b as int);
            }
        }
        in_code = c;
        k += 1;
        byte_pos = next_pos;
    }
    assert(p.subrange(k as int, p.len() as int) =~= Seq::<Seq<char>>::empty());
    assert(toc_items(entries@) =~= toc_items(entries@) + Seq::<TocItem>::empty());
    entries
}

/// Offsets of the headings found in `pieces` lie in the bytes the pieces
/// cover, rise strictly, and levels run from 1 to 6.
pub proof fn lemma_toc_from_offsets(pieces: Seq<Seq<char>>, off: int, in_code: bool, ascii: bool)
    ensures
        ({
            let items = toc_from(pieces, off, in_code, ascii);
            &&& forall|k: int|
                0 <= k < items.len() ==> off <= #[trigger] items[k].offset < off + pieces_bytes(
                    pieces,
                )
            &&& forall|k1: int, k2: int|
                0 <= k1 < k2 < items.len() ==> #[trigger] items[k1].offset < #[trigger] items[k2].offset
            &&& forall|k: int| 0 <= k < items.len() ==> 1 <= #[trigger] items[k].level <= 6
        }),
    decreases pieces.len(),
{
    if pieces.len() > 0 {
        let raw = pieces[0];
        let next = off + byte_len(raw) + 1;
        let (first, c2) = toc_step(raw, off, in_code, ascii);
        let rest = toc_from(pieces.drop_first(), next, c2, ascii);
        lemma_toc_from_offsets(pieces.drop_first(), next, c2, ascii);
        lemma_pieces_bytes_first(pieces);
        lemma_pieces_bytes_nonneg(pieces.drop_first());
        let items = toc_from(pieces, off, in_code, ascii);
        assert(forall|k: int| 0 <= k < first.len() ==> first[k].offset == off && 1 <= first[k].level <= 6);
        assert(items == first + rest);
        assert forall|k: int| 0 <= k < items.len() implies off <= #[trigger] items[k].offset < off
            + pieces_bytes(pieces) && 1 <= items[k].level <= 6 by {
            if k < first.len() {
                assert(items[k] == first[k]);
            } else {
                assert(items[k] == rest[k - first.len()]);
            }
        }
        assert forall|k1: int, k2: int| 0 <= k1 < k2 < items.len() implies #[trigger] items[k1].offset
            < #[trigger] items[k2].offset by {
            if k1 < first.len() {
                assert(items[k1] == first[k1]);
                assert(items[k2] == rest[k2 - first.len()]);
            } else {
                assert(items[k1] == rest[k1 - first.len()]);
                assert(items[k2] == rest[k2 - first.len()]);
            }
        }
    }
}

/// `o` is where one of `pieces` that opens with `#` starts, the first
/// piece starting at `off`.
spec fn at_heading_piece(pieces: Seq<Seq<char>>, off: int, o: int) -> bool {
    exists|j: int|
        0 <= j < pieces.len() && o == off + #[trigger] pieces_bytes(pieces.take(j))
            && pieces[j].len() > 0 && pieces[j][0] == '#'
}

proof fn lemma_strip_end_prefix(s: Seq<char>, cs: CharSet)
    ensures
        strip_end(s, cs).len() <= s.len(),
        strip_end(s, cs) == s.subrange(0, strip_end(s, cs).len() as int),
    decreases s.len(),
{
    if s.len() > 0 && crate::text::in_set(cs, s.last()) {
        lemma_strip_end_prefix(s.drop_last(), cs);
        let r = strip_end(s.drop_last(), cs);
        assert(s.drop_last().subrange(0, r.len() as int) =~= s.subrange(0, r.len() as int));
    } else {
        assert(s.subrange(0, s.len() as int) =~= s);
    }
}

/// A piece gives a heading only if it opens with `#`.
proof fn lemma_step_heading(raw: Seq<char>, off: int, in_code: bool, ascii: bool)
    ensures
        toc_step(raw, off, in_code, ascii).0.len() > 0 ==> raw.len() > 0 && raw[0] == '#',
{
    let line = strip_end(raw, CharSet::One('\r'));
    lemma_strip_end_prefix(raw, CharSet::One('\r'));
    if toc_step(raw, off, in_code, ascii).0.len() > 0 {
        assert(heading_of(line) is Some);
        if line.len() == 0 || line[0] != '#' {
            assert(strip_start(line, CharSet::One('#')) == line);
            assert(leading_hashes(line) == 0);
        }
        assert(line[0] == raw[0]);
    }
}

/// Each heading found in `pieces` starts where one of the pieces starts, a
/// piece that opens with `#`.
proof fn lemma_toc_from_piece_starts(pieces: Seq<Seq<char>>, off: int, in_code: bool, ascii: bool)
    ensures
        forall|k: int|
            0 <= k < toc_from(pieces, off, in_code, ascii).len() ==> at_heading_piece(
                pieces,
                off,
                #[trigger] toc_from(pieces, off, in_code, ascii)[k].offset,
            ),
    decreases pieces.len(),
{
    if pieces.len() > 0 {
        let raw = pieces[0];
        let next = off + byte_len(raw) + 1;
        let (first, c2) = toc_step(raw, off, in_code, ascii);
        let tail = pieces.drop_first();
        let rest = toc_from(tail, next, c2, ascii);
        lemma_toc_from_piece_starts(tail, next, c2, ascii);
        lemma_step_heading(raw, off, in_code, ascii);
        let items = toc_from(pieces, off, in_code, ascii);
        assert(items == first + rest);
        assert forall|k: int| 0 <= k < items.len() implies at_heading_piece(
            pieces,
            off,
            #[trigger] items[k].offset,
        ) by {
            if k < first.len() {
                assert(items[k] == first[k]);
                assert(pieces.take(0) =~= Seq::<Seq<char>>::empty());
                assert(items[k].offset == off + pieces_bytes(pieces.take(0)));
            } else {
                let kk = k - first.len();
                assert(items[k] == rest[kk]);
                assert(at_heading_piece(tail, next, rest[kk].offset));
                let j2 = choose|j2: int|
                    0 <= j2 < tail.len() && rest[kk].offset == next + #[trigger] pieces_bytes(
                        tail.take(j2),
                    ) && tail[j2].len() > 0 && tail[j2][0] == '#';
                lemma_pieces_bytes_first(pieces.take(j2 + 1));
                assert(pieces.take(j2 + 1).drop_first() =~= tail.take(j2));
                assert(pieces.take(j2 + 1)[0] == raw);
                assert(pieces[j2 + 1] == tail[j2]);
                assert(items[k].offset == off + pieces_bytes(pieces.take(j2 + 1)));
            }
        }
    }
}

/// The line of a piece, without one `'\r'` ending it, starts a code fence:
/// ``` or ~~~, with or without an info string such as ```rust.
pub open spec fn opens_fence(raw: Seq<char>) -> bool {
    let l = strip_end(raw, CharSet::One('\r'));
    seq!['`', '`', '`'].is_prefix_of(l) || seq!['~', '~', '~'].is_prefix_of(l)
}

/// A fence line gives no heading and flips whether a code block is open.
pub proof fn lemma_fence_toggles(raw: Seq<char>, off: int, in_code: bool, ascii: bool)
    requires
        opens_fence(raw),
    ensures
        toc_step(raw, off, in_code, ascii) == (Seq::<TocItem>::empty(), !in_code),
{
}

proof fn lemma_fenced_inner(
    inner: Seq<Seq<char>>,
    close: Seq<char>,
    rest: Seq<Seq<char>>,
    off: int,
    ascii: bool,
)
    requires
        opens_fence(close),
        forall|k: int| 0 <= k < inner.len() ==> !opens_fence(#[trigger] inner[k]),
    ensures
        toc_from(inner + seq![close] + rest, off, true, ascii) == toc_from(
            rest,
            off + pieces_bytes(inner.push(close)),
            false,
            ascii,
        ),
    decreases inner.len(),
{
    let all = inner + seq![close] + rest;
    lemma_pieces_bytes_first(inner.push(close));
    if inner.len() == 0 {
        assert(all[0] == close);
        assert(all.drop_first() =~= rest);
        assert(inner.push(close) =~= seq![close]);
        assert(seq![close].drop_first() =~= Seq::<Seq<char>>::empty());
        assert(pieces_bytes(Seq::<Seq<char>>::empty()) == 0);
        assert(toc_from(all, off, true, ascii) =~= Seq::<TocItem>::empty() + toc_from(
            rest,
            off + byte_len(close) + 1,
            false,
            ascii,
        ));
    } else {
        let i0 = inner[0];
        let tail = inner.drop_first();
        assert forall|k: int| 0 <= k < tail.len() implies !opens_fence(#[trigger] tail[k]) by {
            assert(tail[k] == inner[k + 1]);
        }
        lemma_fenced_inner(tail, close, rest, off + byte_len(i0) + 1, ascii);
        assert(all[0] == i0);
        assert(all.drop_first() =~= tail + seq![close] + rest);
        assert(!opens_fence(i0));
        assert(!is_fence(strip_end(i0, CharSet::One('\r'))));
        assert(inner.push(close)[0] == i0);
        assert(inner.push(close).drop_first() =~= tail.push(close));
        assert(toc_from(all, off, true, ascii) =~= Seq::<TocItem>::empty() + toc_from(
            tail + seq![close] + rest,
            off + byte_len(i0) + 1,
            true,
            ascii,
        ));
    }
}

/// A fenced code block contributes no heading, and after its closing fence
/// headings are found again: the outline of a block (an opening fence line,
/// lines that open no fence, a closing fence line) followed by more lines is
/// the outline of those lines, their offsets counted after the block.
pub proof fn lemma_toc_skips_fenced_block(
    open: Seq<char>,
    inner: Seq<Seq<char>>,
    close: Seq<char>,
    rest: Seq<Seq<char>>,
    off: int,
    ascii: bool,
)
    requires
        opens_fence(open),
        opens_fence(close),
        forall|k: int| 0 <= k < inner.len() ==> !opens_fence(#[trigger] inner[k]),
    ensures
        toc_from(seq![open] + inner + seq![close] + rest, off, false, ascii) == toc_from(
            rest,
            off + pieces_bytes(seq![open] + inner + seq![close]),
            false,
            ascii,
        ),
{
    let all = seq![open] + inner + seq![close] + rest;
    let blk = seq![open] + inner + seq![close];
    lemma_fenced_inner(inner, close, rest, off + byte_len(open) + 1, ascii);
    lemma_pieces_bytes_first(blk);
    assert(blk[0] == open);
    assert(blk.drop_first() =~= inner.push(close));
    assert(all[0] == open);
    assert(all.drop_first() =~= inner + seq![close] + rest);
    assert(toc_from(all, off, false, ascii) =~= Seq::<TocItem>::empty() + toc_from(
        inner + seq![close] + rest,
        off + byte_len(open) + 1,
        true,
        ascii,
    ));
}

/// The byte offset `b` of `s` is where a `#` stands.
pub open spec fn hash_at(s: Seq<char>, b: int) -> bool {
    exists|m: int| 0 <= m < s.len() && #[trigger] byte_len(s.subrange(0, m)) == b && s[m] == '#'
}

/// Every heading of a table of contents starts at a character boundary
/// inside the text, on the `#` that opens its line; the offsets rise
/// strictly, and levels run from 1 to 6.
pub proof fn lemma_toc_offsets(markdown: Seq<char>)
    ensures
        ({
            let toc = toc_of(markdown);
            &&& forall|k: int| 0 <= k < toc.len() ==> 0 <= #[trigger] toc[k].offset <= byte_len(markdown)
            &&& forall|k: int| 0 <= k < toc.len() ==> char_boundary(markdown, #[trigger] toc[k].offset)
            &&& forall|k: int| 0 <= k < toc.len() ==> hash_at(markdown, #[trigger] toc[k].offset)
            &&& forall|k1: int, k2: int|
                0 <= k1 < k2 < toc.len() ==> #[trigger] toc[k1].offset < #[trigger] toc[k2].offset
            &&& forall|k: int| 0 <= k < toc.len() ==> 1 <= #[trigger] toc[k].level <= 6
        }),
{
    let p = split_nl(markdown);
    lemma_toc_from_offsets(p, 0, false, false);
    lemma_split_nl_bytes(markdown);
    lemma_toc_from_piece_starts(p, 0, false, false);
    lemma_split_nl_pieces(markdown);
    let toc = toc_of(markdown);
    assert forall|k: int| 0 <= k < toc.len() implies char_boundary(markdown, #[trigger] toc[k].offset)
        && hash_at(markdown, toc[k].offset) by {
        assert(at_heading_piece(p, 0, toc[k].offset));
        let j = choose|j: int|
            0 <= j < p.len() && toc[k].offset == 0 + #[trigger] pieces_bytes(p.take(j)) && p[j].len()
                > 0 && p[j][0] == '#';
        assert(piece_at(markdown, p[j], pieces_bytes(p.take(j))));
        let m = choose|m: int|
            0 <= m && m + p[j].len() <= markdown.len() && #[trigger] byte_len(markdown.subrange(0, m))
                == pieces_bytes(p.take(j)) && markdown.subrange(m, m + p[j].len()) == p[j];
        assert(markdown.subrange(m, m + p[j].len())[0] == markdown[m]);
        assert(byte_len(markdown.subrange(0, m)) == toc[k].offset);
    }
}

proof fn lemma_slug_ascii_add(a: Seq<char>, b: Seq<char>)
    ensures
        slug_ascii(a + b) == slug_ascii(a) + slug_ascii(b),
    decreases b.len(),
{
    if b.len() == 0 {
        assert(a + b =~= a);
        assert(slug_ascii(a) + slug_ascii(b) =~= slug_ascii(a));
    } else {
        lemma_slug_ascii_add(a, b.drop_last());
        assert((a + b).drop_last() =~= a + b.drop_last());
        assert((a + b).last() == b.last());
        assert(slug_ascii(a) + slug_ascii(b) =~= slug_ascii(a) + slug_ascii(b.drop_last())
            + slug_char_ascii(b.last()));
    }
}

/// Text that every character keeps unchanged in an anchor.
spec fn anchor_stable(s: Seq<char>) -> bool {
    forall|i: int| 0 <= i < s.len() ==> #[trigger] slug_char_ascii(s[i]) == seq![s[i]]
}

proof fn lemma_slug_ascii_stable(s: Seq<char>)
    ensures
        anchor_stable(slug_ascii(s)),
        is_ascii_chars(slug_ascii(s)),
    decreases s.len(),
{
    if s.len() > 0 {
        lemma_slug_ascii_stable(s.drop_last());
        let r = slug_ascii(s.drop_last());
        let c = s.last();
        let x = slug_char_ascii(c);
        if is_ascii_alnum(c) {
            let l = ascii_lower(c);
            assert(is_ascii_alnum(l) && ascii_lower(l) == l);
        }
        assert forall|i: int| 0 <= i < (r + x).len() implies #[trigger] slug_char_ascii((r + x)[i])
            == seq![(r + x)[i]] by {
            if i < r.len() {
                assert((r + x)[i] == r[i]);
            } else {
                assert((r + x)[i] == x[i - r.len()]);
            }
        }
        assert forall|i: int| 0 <= i < (r + x).len() implies '\0' <= #[trigger] (r + x)[i]
            <= '\u{7f}' by {
            if i < r.len() {
                assert((r + x)[i] == r[i]);
            } else {
                assert((r + x)[i] == x[i - r.len()]);
            }
        }
    }
}

proof fn lemma_stable_fixed(s: Seq<char>)
    requires
        anchor_stable(s),
    ensures
        slug_ascii(s) == s,
    decreases s.len(),
{
    if s.len() > 0 {
        let t = s.drop_last();
        assert forall|i: int| 0 <= i < t.len() implies #[trigger] slug_char_ascii(t[i]) == seq![t[i]] by {
            assert(t[i] == s[i]);
        }
        lemma_stable_fixed(t);
        assert(slug_char_ascii(s[s.len() - 1]) == seq![s[s.len() - 1]]);
        assert(t.push(s.last()) =~= s);
    }
}

/// An anchor of ASCII text is ASCII and is its own anchor: making an anchor
/// again changes nothing. Anchors join one-for-one: the anchor of `a + b` is
/// the anchor of `a` followed by that of `b`.
pub proof fn lemma_anchor_idempotent(a: Seq<char>, b: Seq<char>)
    ensures
        is_ascii_chars(slug_ascii(a)),
        slug_ascii(slug_ascii(a)) == slug_ascii(a),
        slug_ascii(a + b) == slug_ascii(a) + slug_ascii(b),
{
    lemma_slug_ascii_stable(a);
    lemma_stable_fixed(slug_ascii(a));
    lemma_slug_ascii_add(a, b);
}

} // verus!
