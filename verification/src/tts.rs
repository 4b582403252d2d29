//! Reading a document aloud: the speakable text of a Markdown source, its
//! division into chunks for the synthesizer, and the decisions of the
//! speaking loop.

use vstd::prelude::*;

use crate::document::{find_char, find_from, lemma_find_from};
use crate::text::{
    is_ws, lemma_split_nl_concat, lemma_split_nl_nonempty, lemma_split_nl_single, lemma_trim_strip_cr,
    split_nl, strip_cr, strip_end, byte_len, chars_of, join_sp, lemma_byte_len_within, line_ranges,
    ordered_ranges, push_collapsed, range_byte_len, range_text, skip_start, str_lines,
    strip_start, trim, trim_range, trim_start, word_ranges, words, CharSet,
    lemma_join_words_idempotent,
};

verus! {

// ── Links and images ──────────────────────────────────────────────────────────

/// `[label](target)` whose `[` is at `start`: the index of `]` and the index
/// just past `)`.
pub open spec fn link_parts(s: Seq<char>, start: int) -> Option<(int, int)> {
    match find_from(s, start + 1, ']') {
        Some(le) => if le + 1 >= s.len() || s[le + 1] != '(' {
            None
        } else {
            match find_from(s, le + 2, ')') {
                Some(te) => Some((le, te + 1)),
                None => None,
            }
        },
        None => None,
    }
}

pub proof fn lemma_link_parts(s: Seq<char>, start: int)
    requires
        0 <= start,
    ensures
        link_parts(s, start) matches Some((le, end)) ==> start < le && le + 2 < end <= s.len(),
{
    lemma_find_from(s, start + 1, ']');
    if let Some(le) = find_from(s, start + 1, ']') {
        lemma_find_from(s, le + 2, ')');
    }
}

/// `s[i..]` with images dropped and links replaced by their labels.
pub open spec fn unlinked_from(s: Seq<char>, i: int) -> Seq<char>
    decreases s.len() - i,
{
    if i < 0 || i >= s.len() {
        Seq::empty()
    } else {
        proof {
            lemma_link_parts(s, i);
            lemma_link_parts(s, i + 1);
        }
        if i + 1 < s.len() && s[i] == '!' && s[i + 1] == '[' && link_parts(s, i + 1) is Some {
            unlinked_from(s, link_parts(s, i + 1).unwrap().1)
        } else if s[i] == '[' && link_parts(s, i) is Some {
            let (le, end) = link_parts(s, i).unwrap();
            s.subrange(i + 1, le) + unlinked_from(s, end)
        } else {
            seq![s[i]] + unlinked_from(s, i + 1)
        }
    }
}

/// The parts of a link whose `[` is at `start` in `v[lo..hi]`, as indices of `v`.
fn markdown_link_parts(v: &Vec<char>, lo: usize, hi: usize, start: usize) -> (r: Option<
    (usize, usize),
>)
    requires
        lo <= start < hi <= v.len(),
    ensures
        match r {
            Some((le, end)) => link_parts(v@.subrange(lo as int, hi as int), start - lo) == Some(
                (le - lo, end - lo),
            ) && start < le < end <= hi,
            None => link_parts(v@.subrange(lo as int, hi as int), start - lo) is None,
        },
{
    let ghost s = v@.subrange(lo as int, hi as int);
    let label_end = match find_char(v, lo, hi, start + 1, ']') {
        Some(le) => le,
        None => {
            return None;
        },
    };
    if label_end + 1 >= hi || v[label_end + 1] != '(' {
        assert(label_end + 1 < hi ==> s[label_end + 1 - lo] == v@[label_end + 1]);
        return None;
    }
    assert(s[label_end + 1 - lo] == v@[label_end + 1]);
    let target_end = match find_char(v, lo, hi, label_end + 2, ')') {
        Some(te) => te,
        None => {
            return None;
        },
    };
    Some((label_end, target_end + 1))
}

/// `v[lo..hi]` with images removed and links replaced by their text.
fn remove_images_and_keep_link_text(v: &Vec<char>, lo: usize, hi: usize) -> (out: Vec<char>)
    requires
        lo <= hi <= v.len(),
    ensures
        out@ == unlinked_from(v@.subrange(lo as int, hi as int), 0),
{
    let ghost s = v@.subrange(lo as int, hi as int);
    let mut out: Vec<char> = Vec::new();
    let mut i = lo;
    assert(out@ + unlinked_from(s, 0) =~= unlinked_from(s, 0));
    while i < hi
        invariant
            lo <= i <= hi <= v.len(),
            s == v@.subrange(lo as int, hi as int),
            out@ + unlinked_from(s, i - lo) == unlinked_from(s, 0),
        decreases hi - i,
    {
        let ghost before = out@;
        let ghost k = i - lo;
        assert(s[k] == v@[i as int]);
        proof {
            lemma_link_parts(s, k);
            lemma_link_parts(s, k + 1);
        }
        if i + 1 < hi && v[i] == '!' && v[i + 1] == '[' {
            assert(s[k + 1] == v@[i + 1]);
            if let Some((_, end)) = markdown_link_parts(v, lo, hi, i + 1) {
                i = end;
                continue;
            }
        }
        if v[i] == '[' {
            if let Some((label_end, end)) = markdown_link_parts(v, lo, hi, i) {
                let mut j = i + 1;
                while j < label_end
                    invariant
                        i + 1 <= j <= label_end <= hi <= v.len(),
                        out@ == before + v@.subrange(i + 1, j as int),
                    decreases label_end - j,
                {
                    out.push(v[j]);
                    assert(v@.subrange(i + 1, j + 1) =~= v@.subrange(i + 1, j as int).push(
                        v@[j as int],
                    ));
                    j += 1;
                }
                assert(s.subrange(k + 1, label_end - lo) =~= v@.subrange(i + 1, label_end as int));
                assert(out@ + unlinked_from(s, end - lo) =~= before + unlinked_from(s, k));
                i = end;
                continue;
            }
        }
        out.push(v[i]);
        assert(out@ + unlinked_from(s, k + 1) =~= before + unlinked_from(s, k));
        i += 1;
    }
    assert(out@ =~= out@ + unlinked_from(s, i - lo));
    out
}

// ── Cleaning a line ──────────────────────────────────────────────────────────

pub open spec fn is_ascii_digit(c: char) -> bool {
    '0' <= c <= '9'
}

/// A line without its list marker: `- `, `* `, `+ ` or a number and `.`.
pub open spec fn without_list_marker(line: Seq<char>) -> Seq<char> {
    let s = trim_start(line);
    if s.len() >= 2 && (s[0] == '-' || s[0] == '*' || s[0] == '+') && s[1] == ' ' {
        trim_start(s.subrange(2, s.len() as int))
    } else {
        match find_from(s, 0, '.') {
            Some(d) => if d > 0 && forall|j: int| 0 <= j < d ==> is_ascii_digit(#[trigger] s[j]) {
                trim_start(s.subrange(d + 1, s.len() as int))
            } else {
                s
            },
            None => s,
        }
    }
}

/// Characters that mark up emphasis, code, strike-through and HTML.
pub open spec fn is_markup_char(c: char) -> bool {
    c == '*' || c == '_' || c == '`' || c == '~' || c == '<' || c == '>'
}

/// `s` without markup characters.
pub open spec fn without_markup(s: Seq<char>) -> Seq<char>
    decreases s.len(),
{
    if s.len() == 0 {
        Seq::empty()
    } else if is_markup_char(s.last()) {
        without_markup(s.drop_last())
    } else {
        without_markup(s.drop_last()).push(s.last())
    }
}

/// The speakable text of one trimmed Markdown line.
pub open spec fn cleaned_line(line: Seq<char>) -> Seq<char> {
    let s1 = trim(line);
    let s2 = trim_start(strip_start(s1, CharSet::One('#')));
    let s3 = trim_start(strip_start(s2, CharSet::One('>')));
    without_markup(unlinked_from(without_list_marker(s3), 0))
}

/// Bounds of `v[lo..hi]` without its list marker.
fn strip_list_marker(v: &Vec<char>, lo: usize, hi: usize) -> (r: (usize, usize))
    requires
        lo <= hi <= v.len(),
    ensures
        lo <= r.0 <= r.1 == hi,
        v@.subrange(r.0 as int, r.1 as int) == without_list_marker(v@.subrange(lo as int, hi as int)),
{
    let a = skip_start(v, lo, hi, CharSet::Whitespace);
    let ghost s = v@.subrange(a as int, hi as int);
    if hi - a >= 2 && (v[a] == '-' || v[a] == '*' || v[a] == '+') && v[a + 1] == ' ' {
        assert(s[0] == v@[a as int] && s[1] == v@[a + 1]);
        let b = skip_start(v, a + 2, hi, CharSet::Whitespace);
        assert(s.subrange(2, s.len() as int) =~= v@.subrange(a + 2, hi as int));
        return (b, hi);
    }
    proof {
        if hi - a >= 2 {
            assert(s[0] == v@[a as int] && s[1] == v@[a + 1]);
        }
    }
    match find_char(v, a, hi, a, '.') {
        Some(d) => {
            let digits = all_ascii_digits(v, a, d);
            proof {
                assert forall|t: int| 0 <= t < d - a implies s[t] == v@[a + t] by {}
            }
            if d > a && digits {
                let b = skip_start(v, d + 1, hi, CharSet::Whitespace);
                assert(s.subrange(d - a + 1, s.len() as int) =~= v@.subrange(d + 1, hi as int));
                (b, hi)
            } else {
                proof {
                    if d > a {
                        let t = choose|t: int| a <= t < d && !is_ascii_digit(v@[t]);
                        assert(s[t - a] == v@[t]);
                    }
                }
                (a, hi)
            }
        },
        None => (a, hi),
    }
}

/// Whether `v[lo..hi]` holds only ASCII digits.
fn all_ascii_digits(v: &Vec<char>, lo: usize, hi: usize) -> (b: bool)
    requires
        lo <= hi <= v.len(),
    ensures
        b == forall|t: int| lo <= t < hi ==> is_ascii_digit(#[trigger] v@[t]),
{
    let mut j = lo;
    while j < hi
        invariant
            lo <= j <= hi <= v.len(),
            forall|t: int| lo <= t < j ==> is_ascii_digit(#[trigger] v@[t]),
        decreases hi - j,
    {
        if !('0' <= v[j] && v[j] <= '9') {
            return false;
        }
        j += 1;
    }
    true
}

/// The speakable text of the line `v[lo..hi]`.
fn clean_markdown_line(v: &Vec<char>, lo: usize, hi: usize) -> (out: Vec<char>)
    requires
        lo <= hi <= v.len(),
    ensures
        out@ == cleaned_line(v@.subrange(lo as int, hi as int)),
{
    let (a, b) = trim_range(v, lo, hi);
    let h = skip_start(v, a, b, CharSet::One('#'));
    let h2 = skip_start(v, h, b, CharSet::Whitespace);
    let q = skip_start(v, h2, b, CharSet::One('>'));
    let q2 = skip_start(v, q, b, CharSet::Whitespace);
    let (m, e) = strip_list_marker(v, q2, b);
    let u = remove_images_and_keep_link_text(v, m, e);
    let mut out: Vec<char> = Vec::new();
    let mut i: usize = 0;
    while i < u.len()
        invariant
            i <= u@.len(),
            out@ == without_markup(u@.subrange(0, i as int)),
        decreases u.len() - i,
    {
        assert(u@.subrange(0, i + 1).drop_last() =~= u@.subrange(0, i as int));
        let c = u[i];
        if !(c == '*' || c == '_' || c == '`' || c == '~' || c == '<' || c == '>') {
            out.push(c);
        }
        i += 1;
    }
    assert(u@.subrange(0, u@.len() as int) =~= u@);
    out
}

// ── Speech text ───────────────────────────────────────────────────────────────

pub open spec fn three_dashes() -> Seq<char> {
    seq!['-', '-', '-']
}

pub open spec fn three_dots() -> Seq<char> {
    seq!['.', '.', '.']
}

/// The cleaned, non-empty lines that are read aloud, from the lines `lines`;
/// `first` tells whether `lines[0]` is the first line of the document,
/// `in_fm` whether front matter is open, `in_code` whether a fence is open.
pub open spec fn speech_pieces(lines: Seq<Seq<char>>, first: bool, in_fm: bool, in_code: bool) -> Seq<
    Seq<char>,
>
    decreases lines.len(),
{
    if lines.len() == 0 {
        Seq::empty()
    } else {
        let t = trim(lines[0]);
        let rest = lines.drop_first();
        if first && t == three_dashes() {
            speech_pieces(rest, false, true, in_code)
        } else if in_fm {
            speech_pieces(rest, false, !(t == three_dashes() || t == three_dots()), in_code)
        } else if crate::outline::is_fence(t) {
            speech_pieces(rest, false, in_fm, !in_code)
        } else if in_code || t.len() == 0 {
            speech_pieces(rest, false, in_fm, in_code)
        } else {
            let c = cleaned_line(t);
            if c.len() > 0 {
                seq![c] + speech_pieces(rest, false, in_fm, in_code)
            } else {
                speech_pieces(rest, false, in_fm, in_code)
            }
        }
    }
}

/// The text read aloud for a Markdown source: front matter and fenced code
/// left out, each remaining line cleaned, words separated by single spaces.
pub open spec fn speech_text(markdown: Seq<char>) -> Seq<char> {
    join_sp(words(join_sp(speech_pieces(str_lines(markdown), true, false, false))))
}

fn range_eq3(v: &Vec<char>, a: usize, b: usize, c: char) -> (r: bool)
    requires
        a <= b <= v.len(),
    ensures
        r == (v@.subrange(a as int, b as int) == seq![c, c, c]),
{
    let ghost l = v@.subrange(a as int, b as int);
    if b - a != 3 {
        assert(l.len() != 3);
        return false;
    }
    assert(l[0] == v@[a as int] && l[1] == v@[a + 1] && l[2] == v@[a + 2]);
    assert(seq![c, c, c][0] == c && seq![c, c, c][1] == c && seq![c, c, c][2] == c);
    if v[a] == c && v[a + 1] == c && v[a + 2] == c {
        assert(l =~= seq![c, c, c]);
        true
    } else {
        false
    }
}

fn is_fence_at(v: &Vec<char>, a: usize, b: usize) -> (r: bool)
    requires
        a <= b <= v.len(),
    ensures
        r == crate::outline::is_fence(v@.subrange(a as int, b as int)),
{
    let ticks = vec!['`', '`', '`'];
    let tildes = vec!['~', '~', '~'];
    assert(ticks@ =~= seq!['`', '`', '`']);
    assert(tildes@ =~= seq!['~', '~', '~']);
    crate::text::has_prefix(v, a, b, &ticks) || crate::text::has_prefix(v, a, b, &tildes)
}

/// The text a speech synthesizer reads for a Markdown document.
pub fn markdown_to_speech_text(markdown: &str) -> (text: String)
    ensures
        text@ == speech_text(markdown@),
{
    let v = chars_of(markdown);
    let n = v.len();
    assert(v@.subrange(0, n as int) =~= v@);
    let lines = line_ranges(&v, 0, n);
    let ghost l = str_lines(v@);
    let ghost mut done: Seq<Seq<char>> = Seq::empty();
    let mut out: Vec<char> = Vec::new();
    let mut any = false;
    let mut in_code = false;
    let mut in_frontmatter = false;
    let mut k: usize = 0;
    assert(l.subrange(0, l.len() as int) =~= l);
    assert(done + speech_pieces(l, true, false, false) =~= speech_pieces(l, true, false, false));
    while k < lines.len()
        invariant
            n == v@.len(),
            lines@.len() == l.len(),
            forall|j: int| 0 <= j < lines@.len() ==> range_text(v@, #[trigger] lines@[j]) == l[j],
            ordered_ranges(lines@, 0, n as int),
            k <= lines@.len(),
            done + speech_pieces(l.subrange(k as int, l.len() as int), k == 0, in_frontmatter, in_code)
                == speech_pieces(l, true, false, false),
            out@ == join_sp(done),
            any == (done.len() > 0),
            forall|j: int| 0 <= j < done.len() ==> (#[trigger] done[j]).len() > 0,
        decreases lines@.len() - k,
    {
        let (a0, b0) = lines[k];
        let ghost rest = l.subrange(k as int, l.len() as int);
        let ghost rest2 = l.subrange(k + 1, l.len() as int);
        assert(rest[0] == l[k as int]);
        assert(rest.drop_first() =~= rest2);
        assert(range_text(v@, lines@[k as int]) == l[k as int]);
        assert(0 <= lines@[k as int].0 <= lines@[k as int].1 <= n);
        let (a, b) = trim_range(&v, a0, b0);
        let is_dashes = range_eq3(&v, a, b, '-');
        let is_dots = range_eq3(&v, a, b, '.');
        proof {
            assert(seq!['-', '-', '-'] =~= three_dashes());
            assert(seq!['.', '.', '.'] =~= three_dots());
        }
        if k == 0 && is_dashes {
            in_frontmatter = true;
        } else if in_frontmatter {
            if is_dashes || is_dots {
                in_frontmatter = false;
            }
        } else if is_fence_at(&v, a, b) {
            in_code = !in_code;
        } else if in_code || a == b {
        } else {
            let cleaned = clean_markdown_line(&v, a, b);
            if cleaned.len() > 0 {
                proof {
                    crate::text::lemma_join_push(done, cleaned@);
                }
                if any {
                    out.push(' ');
                }
                let mut i: usize = 0;
                let ghost base = out@;
                while i < cleaned.len()
                    invariant
                        i <= cleaned@.len(),
                        out@ == base + cleaned@.subrange(0, i as int),
                    decreases cleaned.len() - i,
                {
                    out.push(cleaned[i]);
                    assert(cleaned@.subrange(0, i + 1) =~= cleaned@.subrange(0, i as int).push(
                        cleaned@[i as int],
                    ));
                    i += 1;
                }
                assert(cleaned@.subrange(0, cleaned@.len() as int) =~= cleaned@);
                proof {
                    let old_done = done;
                    done = done.push(cleaned@);
                    assert(done.drop_last() =~= old_done);
                    assert(out@ =~= join_sp(done));
                    assert(done + speech_pieces(rest2, false, in_frontmatter, in_code) =~= old_done
                        + (seq![cleaned@] + speech_pieces(rest2, false, in_frontmatter, in_code)));
                }
                any = true;
            }
        }
        k += 1;
    }
    assert(l.subrange(k as int, l.len() as int) =~= Seq::<Seq<char>>::empty());
    assert(done =~= done + Seq::<Seq<char>>::empty());
    let mut text = String::new();
    push_collapsed(&mut text, &out, 0, out.len());
    assert(out@.subrange(0, out@.len() as int) =~= out@);
    text
}

// ── Chunks for the synthesizer ────────────────────────────────────────────────

/// Upper bound, in bytes, of the text handed to the synthesizer at once.
pub const MAX_TTS_CHARS_PER_CHUNK: usize = 700;

/// Chunks made from the words `ws`, `cur` being the chunk under construction:
/// a word joins the current chunk, after a space, unless that would make it
/// longer than `max` bytes; then the chunk is closed and the word starts the
/// next one.
pub open spec fn chunks_from(ws: Seq<Seq<char>>, cur: Seq<char>, max: int) -> Seq<Seq<char>>
    decreases ws.len(),
{
    if ws.len() == 0 {
        if cur.len() > 0 {
            seq![cur]
        } else {
            Seq::empty()
        }
    } else {
        let w = ws[0];
        let rest = ws.drop_first();
        if cur.len() > 0 && byte_len(cur) + 1 + byte_len(w) > max {
            seq![cur] + chunks_from(rest, w, max)
        } else if cur.len() > 0 {
            chunks_from(rest, cur + seq![' '] + w, max)
        } else {
            chunks_from(rest, w, max)
        }
    }
}

/// The chunks `speech_chunks` makes of `text`.
pub open spec fn chunks_of(text: Seq<char>, max: int) -> Seq<Seq<char>> {
    chunks_from(words(text), Seq::empty(), max)
}

pub open spec fn string_views(v: Seq<String>) -> Seq<Seq<char>> {
    v.map_values(|s: String| s@)
}

/// Splits `text` at whitespace into chunks of at most `max_chars` bytes
/// (a single longer word makes a chunk of its own).
pub fn speech_chunks(text: &str, max_chars: usize) -> (chunks: Vec<String>)
    ensures
        string_views(chunks@) == chunks_of(text@, max_chars as int),
{
    let _ = crate::text::str_byte_len(text);
    let v = chars_of(text);
    let n = v.len();
    assert(v@.subrange(0, n as int) =~= v@);
    let ws = word_ranges(&v, 0, n);
    let ghost w = words(v@);
    let mut chunks: Vec<String> = Vec::new();
    let mut current = String::new();
    let mut cur_len: usize = 0;
    let mut k: usize = 0;
    assert(w.subrange(0, w.len() as int) =~= w);
    assert(string_views(chunks@) + chunks_of(v@, max_chars as int) =~= chunks_of(v@, max_chars as int));
    while k < ws.len()
        invariant
            n == v@.len(),
            byte_len(v@) <= usize::MAX,
            ws@.len() == w.len(),
            forall|j: int| 0 <= j < ws@.len() ==> range_text(v@, #[trigger] ws@[j]) == w[j],
            forall|j: int| 0 <= j < ws@.len() ==> 0 <= #[trigger] ws@[j].0 <= ws@[j].1 <= n,
            k <= ws@.len(),
            cur_len == byte_len(current@),
            string_views(chunks@) + chunks_from(w.subrange(k as int, w.len() as int), current@, max_chars as int)
                == chunks_of(v@, max_chars as int),
        decreases ws@.len() - k,
    {
        let (a, b) = ws[k];
        let ghost rest = w.subrange(k as int, w.len() as int);
        let ghost rest2 = w.subrange(k + 1, w.len() as int);
        assert(rest[0] == w[k as int]);
        assert(rest.drop_first() =~= rest2);
        assert(range_text(v@, ws@[k as int]) == w[k as int]);
        assert(0 <= ws@[k as int].0 <= ws@[k as int].1 <= n);
        proof {
            lemma_byte_len_within(v@, a as int, b as int);
        }
        let wlen = range_byte_len(&v, a, b);
        assert(v@.subrange(a as int, b as int) == w[k as int]);
        let ghost before = string_views(chunks@);
        let ghost cur0 = current@;
        let ghost wk = w[k as int];
        proof {
            crate::text::lemma_byte_len_bounds(cur0);
            crate::text::lemma_byte_len_single(' ');
        }
        if cur_len > 0 && (cur_len as u128) + 1 + (wlen as u128) > (max_chars as u128) {
            let done = current;
            chunks.push(done);
            assert(string_views(chunks@) =~= before + seq![cur0]);
            current = String::new();
            crate::text::push_range(&mut current, &v, a, b);
            assert(current@ =~= wk);
            cur_len = wlen;
            assert(string_views(chunks@) + chunks_from(rest2, current@, max_chars as int) =~= before
                + chunks_from(rest, cur0, max_chars as int));
        } else if cur_len > 0 {
            crate::text::push_char(&mut current, ' ');
            crate::text::push_range(&mut current, &v, a, b);
            proof {
                crate::text::lemma_byte_len_add(cur0 + seq![' '], wk);
                crate::text::lemma_byte_len_add(cur0, seq![' ']);
                assert(current@ =~= cur0 + seq![' '] + wk);
            }
            cur_len = cur_len + 1 + wlen;
            assert(string_views(chunks@) + chunks_from(rest2, current@, max_chars as int) =~= before
                + chunks_from(rest, cur0, max_chars as int));
        } else {
            crate::text::push_range(&mut current, &v, a, b);
            proof {
                assert(cur0.len() == 0);
                assert(current@ =~= wk);
            }
            cur_len = wlen;
            assert(string_views(chunks@) + chunks_from(rest2, current@, max_chars as int) =~= before
                + chunks_from(rest, cur0, max_chars as int));
        }
        k += 1;
    }
    proof {
        crate::text::lemma_byte_len_bounds(current@);
        assert(w.subrange(k as int, w.len() as int) =~= Seq::<Seq<char>>::empty());
    }
    let ghost before = string_views(chunks@);
    if cur_len > 0 {
        let ghost last = current@;
        chunks.push(current);
        assert(string_views(chunks@) =~= before + seq![last]);
    } else {
        assert(string_views(chunks@) =~= before + Seq::<Seq<char>>::empty());
    }
    chunks
}

// ── Speaking ─────────────────────────────────────────────────────────────────

pub const DEFAULT_MODEL_PATH: &'static str = "models/en_US-libritts_r-medium.onnx";

pub const DEFAULT_CONFIG_PATH: &'static str = "models/en_US-libritts_r-medium.onnx.json";

/// The error a document with nothing to read gives.
pub const NO_READABLE_TEXT: &'static str = "No readable text found";

#[derive(Debug, Clone, Copy, PartialEq, Eq, Structural)]
pub enum SpeechOutcome {
    Finished,
    Stopped,
}

/// The Piper model and its configuration, relative to the working directory.
pub fn default_model_paths() -> (r: (String, String))
    ensures
        r.0@ == DEFAULT_MODEL_PATH@,
        r.1@ == DEFAULT_CONFIG_PATH@,
{
    (DEFAULT_MODEL_PATH.to_owned(), DEFAULT_CONFIG_PATH.to_owned())
}

/// Where the speaking loop stands.
#[derive(Debug, Clone, Copy, PartialEq, Eq, Structural)]
pub enum SpeechPhase {
    /// About to start chunk `next`.
    Ready,
    /// Chunk `next` has been synthesized and is about to be played.
    Synthesized,
    /// Chunk `next` is playing.
    Playing,
    /// The loop has ended.
    Done(SpeechOutcome),
}

/// What the speaking loop does next.
#[derive(Debug)]
pub enum SpeechAction {
    /// Synthesize this text.
    Synthesize(String),
    /// Hand the synthesized audio to the player.
    Play,
    /// Let the player run for a moment, then ask again.
    Wait,
    /// Stop the player; the outcome is `Stopped`.
    StopPlayback,
    /// The loop is over.
    Finish(SpeechOutcome),
}

/// What the speaking loop does, as the contracts speak of it.
pub enum StepKind {
    /// Synthesize the chunk with this index.
    Synthesize(int),
    Play,
    Wait,
    StopPlayback,
    Finish(SpeechOutcome),
}

/// One decision of the speaking loop, from the index of the current chunk,
/// the phase, the number of chunks, whether a stop has been requested and
/// whether the player has finished: the new index, the new phase and the
/// action. A stop request is honoured before synthesizing, before playing
/// and while playing; a chunk that has finished playing moves on to the next.
pub open spec fn step_model(next: int, phase: SpeechPhase, len: int, stop: bool, empty: bool) -> (
    int,
    SpeechPhase,
    StepKind,
) {
    match phase {
        SpeechPhase::Done(o) => (next, phase, StepKind::Finish(o)),
        SpeechPhase::Synthesized => if stop {
            (next, SpeechPhase::Done(SpeechOutcome::Stopped), StepKind::Finish(SpeechOutcome::Stopped))
        } else {
            (next, SpeechPhase::Playing, StepKind::Play)
        },
        _ => if phase == SpeechPhase::Playing && !empty {
            if stop {
                (next, SpeechPhase::Done(SpeechOutcome::Stopped), StepKind::StopPlayback)
            } else {
                (next, SpeechPhase::Playing, StepKind::Wait)
            }
        } else {
            let at = if phase == SpeechPhase::Playing {
                next + 1
            } else {
                next
            };
            if at >= len {
                (at, SpeechPhase::Done(SpeechOutcome::Finished), StepKind::Finish(SpeechOutcome::Finished))
            } else if stop {
                (at, SpeechPhase::Done(SpeechOutcome::Stopped), StepKind::Finish(SpeechOutcome::Stopped))
            } else {
                (at, SpeechPhase::Synthesized, StepKind::Synthesize(at))
            }
        },
    }
}

/// `a` is the action `k` describes, chunk texts taken from `chunks`.
pub open spec fn action_is(a: SpeechAction, k: StepKind, chunks: Seq<Seq<char>>) -> bool {
    match k {
        StepKind::Synthesize(i) => a matches SpeechAction::Synthesize(t) && t@ == chunks[i],
        StepKind::Play => a is Play,
        StepKind::Wait => a is Wait,
        StepKind::StopPlayback => a is StopPlayback,
        StepKind::Finish(o) => a == SpeechAction::Finish(o),
    }
}

/// The actions of `n` steps from `(next, phase)` when no stop is requested
/// and the player finishes each chunk at once.
pub open spec fn run_model(next: int, phase: SpeechPhase, len: int, n: nat) -> Seq<StepKind>
    decreases n,
{
    if n == 0 {
        Seq::empty()
    } else {
        let (n2, p2, k) = step_model(next, phase, len, false, true);
        seq![k] + run_model(n2, p2, len, (n - 1) as nat)
    }
}

/// Play chunk `k`, then synthesize and play each following chunk, then
/// finish.
pub open spec fn rest_of_reading(k: int, len: int) -> Seq<StepKind>
    decreases len - k,
{
    if k + 1 < len {
        seq![StepKind::Play, StepKind::Synthesize(k + 1)] + rest_of_reading(k + 1, len)
    } else {
        seq![StepKind::Play, StepKind::Finish(SpeechOutcome::Finished)]
    }
}

/// The whole reading of `len` chunks: each chunk synthesized and played in
/// order, then the loop finishes.
pub open spec fn full_reading(len: int) -> Seq<StepKind> {
    if len > 0 {
        seq![StepKind::Synthesize(0)] + rest_of_reading(0, len)
    } else {
        seq![StepKind::Finish(SpeechOutcome::Finished)]
    }
}

proof fn lemma_rest_of_reading(k: int, len: int)
    requires
        0 <= k < len,
    ensures
        rest_of_reading(k, len).len() == 2 * (len - k),
        run_model(k, SpeechPhase::Synthesized, len, (2 * (len - k)) as nat) == rest_of_reading(k, len),
    decreases len - k,
{
    let n = (2 * (len - k)) as nat;
    assert(step_model(k, SpeechPhase::Synthesized, len, false, true) == (
        k,
        SpeechPhase::Playing,
        StepKind::Play,
    ));
    let after_play = run_model(k, SpeechPhase::Playing, len, (n - 1) as nat);
    assert(run_model(k, SpeechPhase::Synthesized, len, n) == seq![StepKind::Play] + after_play);
    if k + 1 < len {
        lemma_rest_of_reading(k + 1, len);
        assert(step_model(k, SpeechPhase::Playing, len, false, true) == (
            k + 1,
            SpeechPhase::Synthesized,
            StepKind::Synthesize(k + 1),
        ));
        assert(after_play == seq![StepKind::Synthesize(k + 1)] + run_model(
            k + 1,
            SpeechPhase::Synthesized,
            len,
            (n - 2) as nat,
        ));
        assert(run_model(k, SpeechPhase::Synthesized, len, n) =~= rest_of_reading(k, len));
    } else {
        assert(step_model(k, SpeechPhase::Playing, len, false, true) == (
            k + 1,
            SpeechPhase::Done(SpeechOutcome::Finished),
            StepKind::Finish(SpeechOutcome::Finished),
        ));
        assert(run_model(k + 1, SpeechPhase::Done(SpeechOutcome::Finished), len, 0) =~= Seq::<
            StepKind,
        >::empty());
        assert(run_model(k, SpeechPhase::Synthesized, len, n) =~= rest_of_reading(k, len));
    }
}

/// Read aloud without interruption, and with the player finishing each
/// chunk, a plan of `len` chunks synthesizes and plays every chunk once, in
/// order, and then finishes; the loop then stays finished.
pub proof fn lemma_reading_runs_through(len: int)
    requires
        len >= 0,
    ensures
        full_reading(len).len() == 2 * len + 1,
        run_model(0, SpeechPhase::Ready, len, (2 * len + 1) as nat) == full_reading(len),
        step_model(len, SpeechPhase::Done(SpeechOutcome::Finished), len, false, true) == (
            len,
            SpeechPhase::Done(SpeechOutcome::Finished),
            StepKind::Finish(SpeechOutcome::Finished),
        ),
{
    let n = (2 * len + 1) as nat;
    if len > 0 {
        lemma_rest_of_reading(0, len);
        assert(step_model(0, SpeechPhase::Ready, len, false, true) == (
            0int,
            SpeechPhase::Synthesized,
            StepKind::Synthesize(0),
        ));
        assert(run_model(0, SpeechPhase::Ready, len, n) =~= full_reading(len));
    } else {
        assert(run_model(0, SpeechPhase::Done(SpeechOutcome::Finished), len, 0) =~= Seq::<
            StepKind,
        >::empty());
        assert(run_model(0, SpeechPhase::Ready, len, n) =~= full_reading(len));
    }
}

/// A stop request ends the loop at the next step, as stopped, stopping the
/// player if it is playing; but when no chunk is left to start (the last one
/// has just played out) the loop finishes as finished, since a stop is only
/// looked at before a chunk and while one plays. A loop that has ended stays
/// as it ended.
pub proof fn lemma_stop_is_honoured(next: int, phase: SpeechPhase, len: int, empty: bool)
    ensures
        ({
            let (n2, p2, k) = step_model(next, phase, len, true, empty);
            let at = if phase == SpeechPhase::Playing {
                next + 1
            } else {
                next
            };
            match phase {
                SpeechPhase::Done(o) => p2 == phase && k == StepKind::Finish(o),
                _ => if (phase == SpeechPhase::Ready || (phase == SpeechPhase::Playing && empty))
                    && at >= len {
                    p2 == SpeechPhase::Done(SpeechOutcome::Finished) && k == StepKind::Finish(
                        SpeechOutcome::Finished,
                    )
                } else {
                    p2 == SpeechPhase::Done(SpeechOutcome::Stopped) && (k == StepKind::Finish(
                        SpeechOutcome::Stopped,
                    ) || (k == StepKind::StopPlayback && phase == SpeechPhase::Playing))
                },
            }
        }),
{
}

/// The chunks of a document being read aloud and the progress through them.
pub struct SpeechPlan {
    pub chunks: Vec<String>,
    pub next: usize,
    pub phase: SpeechPhase,
}

impl SpeechPlan {
    pub open spec fn wf(&self) -> bool {
        &&& self.next <= self.chunks@.len()
        &&& (self.phase == SpeechPhase::Synthesized || self.phase == SpeechPhase::Playing) ==> self.next
            < self.chunks@.len()
    }

    pub open spec fn chunk_texts(&self) -> Seq<Seq<char>> {
        string_views(self.chunks@)
    }

    /// Decide the next action of the loop, given whether a stop has been
    /// requested and whether the player has finished its audio.
    pub fn step(&mut self, stop_requested: bool, player_empty: bool) -> (a: SpeechAction)
        requires
            old(self).wf(),
        ensures
            final(self).wf(),
            final(self).chunks@ == old(self).chunks@,
            ({
                let (n2, p2, k) = step_model(
                    old(self).next as int,
                    old(self).phase,
                    old(self).chunks@.len() as int,
                    stop_requested,
                    player_empty,
                );
                &&& final(self).next == n2
                &&& final(self).phase == p2
                &&& action_is(a, k, old(self).chunk_texts())
            }),
    {
        match self.phase {
            SpeechPhase::Done(o) => {
                return SpeechAction::Finish(o);
            },
            SpeechPhase::Synthesized => {
                if stop_requested {
                    self.phase = SpeechPhase::Done(SpeechOutcome::Stopped);
                    return SpeechAction::Finish(SpeechOutcome::Stopped);
                }
                self.phase = SpeechPhase::Playing;
                return SpeechAction::Play;
            },
            SpeechPhase::Playing => {
                if !player_empty {
                    if stop_requested {
                        self.phase = SpeechPhase::Done(SpeechOutcome::Stopped);
                        return SpeechAction::StopPlayback;
                    }
                    return SpeechAction::Wait;
                }
                let len = self.chunks.len();
                assert(self.next < len);
                self.next = self.next + 1;
                self.phase = SpeechPhase::Ready;
            },
            SpeechPhase::Ready => {},
        }
        if self.next >= self.chunks.len() {
            self.phase = SpeechPhase::Done(SpeechOutcome::Finished);
            return SpeechAction::Finish(SpeechOutcome::Finished);
        }
        if stop_requested {
            self.phase = SpeechPhase::Done(SpeechOutcome::Stopped);
            return SpeechAction::Finish(SpeechOutcome::Stopped);
        }
        self.phase = SpeechPhase::Synthesized;
        SpeechAction::Synthesize(self.chunks[self.next].clone())
    }
}

/// Chunking words gives chunks exactly when there are words or a chunk under way.
pub proof fn lemma_chunks_nonempty(ws: Seq<Seq<char>>, cur: Seq<char>, max: int)
    requires
        forall|k: int| 0 <= k < ws.len() ==> (#[trigger] ws[k]).len() > 0,
    ensures
        (chunks_from(ws, cur, max).len() > 0) == (ws.len() > 0 || cur.len() > 0),
    decreases ws.len(),
{
    if ws.len() > 0 {
        let rest = ws.drop_first();
        assert forall|k: int| 0 <= k < rest.len() implies (#[trigger] rest[k]).len() > 0 by {
            assert(rest[k] == ws[k + 1]);
        }
        assert(ws[0].len() > 0);
        lemma_chunks_nonempty(rest, ws[0], max);
        if cur.len() > 0 {
            lemma_chunks_nonempty(rest, cur + seq![' '] + ws[0], max);
        }
    }
}

/// Speech text is empty exactly when it has no chunks.
pub proof fn lemma_speech_chunks_empty(text: Seq<char>, max: int)
    requires
        text == join_sp(words(text)),
    ensures
        (chunks_of(text, max).len() == 0) == (text.len() == 0),
{
    crate::text::lemma_words(text);
    lemma_chunks_nonempty(words(text), Seq::empty(), max);
    if text.len() > 0 {
        let w = words(text);
        if w.len() == 0 {
            assert(join_sp(w) =~= Seq::<char>::empty());
        }
    }
}

/// Prepare `markdown` to be read aloud: its speech text in chunks of at most
/// 700 bytes, or an error when there is nothing to read.
pub fn speak_markdown(markdown: &str) -> (r: Result<SpeechPlan, String>)
    ensures
        r is Err <==> speech_text(markdown@).len() == 0,
        r matches Err(e) ==> e@ == NO_READABLE_TEXT@,
        r matches Ok(p) ==> p.wf() && p.next == 0 && p.phase == SpeechPhase::Ready
            && p.chunk_texts() == chunks_of(speech_text(markdown@), MAX_TTS_CHARS_PER_CHUNK as int),
{
    let text = markdown_to_speech_text(markdown);
    proof {
        let ws = words(join_sp(speech_pieces(str_lines(markdown@), true, false, false)));
        crate::text::lemma_words(join_sp(speech_pieces(str_lines(markdown@), true, false, false)));
        lemma_join_words_idempotent(ws);
        lemma_speech_chunks_empty(text@, MAX_TTS_CHARS_PER_CHUNK as int);
    }
    if text.as_str().is_empty() {
        return Err(NO_READABLE_TEXT.to_owned());
    }
    let chunks = speech_chunks(text.as_str(), MAX_TTS_CHARS_PER_CHUNK);
    if chunks.len() == 0 {
        return Err(NO_READABLE_TEXT.to_owned());
    }
    Ok(SpeechPlan { chunks, next: 0, phase: SpeechPhase::Ready })
}

/// The chunks made from `ws` with `cur` under way, joined by spaces, are
/// `cur` and the words joined by spaces.
pub proof fn lemma_chunks_from_rejoin(ws: Seq<Seq<char>>, cur: Seq<char>, max: int)
    requires
        forall|k: int| 0 <= k < ws.len() ==> (#[trigger] ws[k]).len() > 0,
    ensures
        join_sp(chunks_from(ws, cur, max)) == join_sp(
            if cur.len() > 0 {
                seq![cur] + ws
            } else {
                ws
            },
        ),
    decreases ws.len(),
{
    if ws.len() == 0 {
        if cur.len() > 0 {
            assert(seq![cur] + ws =~= seq![cur]);
        }
    } else {
        let w = ws[0];
        let rest = ws.drop_first();
        assert forall|k: int| 0 <= k < rest.len() implies (#[trigger] rest[k]).len() > 0 by {
            assert(rest[k] == ws[k + 1]);
        }
        assert(seq![w] + rest =~= ws);
        if cur.len() > 0 && byte_len(cur) + 1 + byte_len(w) > max {
            lemma_chunks_from_rejoin(rest, w, max);
            lemma_chunks_nonempty(rest, w, max);
            crate::text::lemma_join_cons(cur, chunks_from(rest, w, max));
            crate::text::lemma_join_cons(cur, ws);
        } else if cur.len() > 0 {
            let c2 = cur + seq![' '] + w;
            lemma_chunks_from_rejoin(rest, c2, max);
            crate::text::lemma_join_cons(c2, rest);
            crate::text::lemma_join_cons(cur, ws);
            crate::text::lemma_join_cons(w, rest);
            if rest.len() > 0 {
                assert(c2 + seq![' '] + join_sp(rest) =~= cur + seq![' '] + (w + seq![' ']
                    + join_sp(rest)));
            }
        } else {
            lemma_chunks_from_rejoin(rest, w, max);
        }
    }
}

/// The chunks of a text, joined by spaces, give its words joined by spaces:
/// no word is lost, split or reordered.
pub proof fn lemma_chunks_rejoin(text: Seq<char>, max: int)
    ensures
        join_sp(chunks_of(text, max)) == join_sp(words(text)),
{
    crate::text::lemma_words(text);
    let ws = words(text);
    assert forall|k: int| 0 <= k < ws.len() implies (#[trigger] ws[k]).len() > 0 by {
        assert(crate::text::is_word(ws[k]));
    }
    lemma_chunks_from_rejoin(ws, Seq::empty(), max);
}

/// With every word and the chunk under way at most `max` bytes, every chunk
/// is non-empty and at most `max` bytes.
pub proof fn lemma_chunks_from_bounded(ws: Seq<Seq<char>>, cur: Seq<char>, max: int)
    requires
        forall|k: int| 0 <= k < ws.len() ==> (#[trigger] ws[k]).len() > 0 && byte_len(ws[k]) <= max,
        byte_len(cur) <= max,
    ensures
        forall|k: int|
            0 <= k < chunks_from(ws, cur, max).len() ==> (#[trigger] chunks_from(ws, cur, max)[k]).len()
                > 0 && byte_len(chunks_from(ws, cur, max)[k]) <= max,
    decreases ws.len(),
{
    let out = chunks_from(ws, cur, max);
    if ws.len() == 0 {
        if cur.len() > 0 {
            assert(out =~= seq![cur]);
        } else {
            assert(out =~= Seq::<Seq<char>>::empty());
        }
    } else {
        let w = ws[0];
        let rest = ws.drop_first();
        assert forall|k: int| 0 <= k < rest.len() implies (#[trigger] rest[k]).len() > 0 && byte_len(
            rest[k],
        ) <= max by {
            assert(rest[k] == ws[k + 1]);
        }
        assert(w.len() > 0 && byte_len(w) <= max);
        if cur.len() > 0 && byte_len(cur) + 1 + byte_len(w) > max {
            lemma_chunks_from_bounded(rest, w, max);
            let tail = chunks_from(rest, w, max);
            assert forall|k: int| 0 <= k < out.len() implies (#[trigger] out[k]).len() > 0 && byte_len(
                out[k],
            ) <= max by {
                if k > 0 {
                    assert(out[k] == tail[k - 1]);
                }
            }
        } else if cur.len() > 0 {
            let c2 = cur + seq![' '] + w;
            crate::text::lemma_byte_len_add(cur + seq![' '], w);
            crate::text::lemma_byte_len_add(cur, seq![' ']);
            crate::text::lemma_byte_len_single(' ');
            lemma_chunks_from_bounded(rest, c2, max);
            assert(out == chunks_from(rest, c2, max));
        } else {
            lemma_chunks_from_bounded(rest, w, max);
            assert(out == chunks_from(rest, w, max));
        }
    }
}

/// When no word of a text is longer than `max` bytes, every chunk is
/// non-empty and at most `max` bytes long.
pub proof fn lemma_chunks_bounded(text: Seq<char>, max: int)
    requires
        forall|k: int| 0 <= k < words(text).len() ==> byte_len(#[trigger] words(text)[k]) <= max,
    ensures
        forall|k: int|
            0 <= k < chunks_of(text, max).len() ==> (#[trigger] chunks_of(text, max)[k]).len() > 0
                && byte_len(chunks_of(text, max)[k]) <= max,
{
    crate::text::lemma_words(text);
    let ws = words(text);
    assert forall|k: int| 0 <= k < ws.len() implies (#[trigger] ws[k]).len() > 0 && byte_len(ws[k])
        <= max by {
        assert(crate::text::is_word(ws[k]));
    }
    assert(byte_len(Seq::<char>::empty()) == 0);
    if max >= 0 {
        lemma_chunks_from_bounded(ws, Seq::empty(), max);
    } else {
        if ws.len() > 0 {
            crate::text::lemma_byte_len_bounds(ws[0]);
        }
        assert(chunks_of(text, max) =~= Seq::<Seq<char>>::empty()) by {
            if ws.len() > 0 {
                assert(byte_len(ws[0]) <= max);
            }
        }
    }
}

/// After `lines`, whether the first line is still to come, whether front
/// matter is open and whether a fence is open.
pub open spec fn speech_state(lines: Seq<Seq<char>>, first: bool, in_fm: bool, in_code: bool) -> (
    bool,
    bool,
    bool,
)
    decreases lines.len(),
{
    if lines.len() == 0 {
        (first, in_fm, in_code)
    } else {
        let t = trim(lines[0]);
        let rest = lines.drop_first();
        if first && t == three_dashes() {
            speech_state(rest, false, true, in_code)
        } else if in_fm {
            speech_state(rest, false, !(t == three_dashes() || t == three_dots()), in_code)
        } else if crate::outline::is_fence(t) {
            speech_state(rest, false, in_fm, !in_code)
        } else {
            speech_state(rest, false, in_fm, in_code)
        }
    }
}

proof fn lemma_speech_concat(a: Seq<Seq<char>>, b: Seq<Seq<char>>, first: bool, in_fm: bool, in_code: bool)
    ensures
        ({
            let st = speech_state(a, first, in_fm, in_code);
            speech_pieces(a + b, first, in_fm, in_code) == speech_pieces(a, first, in_fm, in_code)
                + speech_pieces(b, st.0, st.1, st.2)
        }),
    decreases a.len(),
{
    if a.len() == 0 {
        assert(a + b =~= b);
        assert(speech_pieces(a, first, in_fm, in_code) =~= Seq::<Seq<char>>::empty());
        assert(speech_pieces(a + b, first, in_fm, in_code) =~= Seq::<Seq<char>>::empty()
            + speech_pieces(b, first, in_fm, in_code));
    } else {
        assert((a + b)[0] == a[0]);
        assert((a + b).drop_first() =~= a.drop_first() + b);
        let t = trim(a[0]);
        let r = a.drop_first();
        lemma_speech_concat(r, b, false, true, in_code);
        lemma_speech_concat(r, b, false, !(t == three_dashes() || t == three_dots()), in_code);
        lemma_speech_concat(r, b, false, in_fm, !in_code);
        lemma_speech_concat(r, b, false, in_fm, in_code);
        if first && t == three_dashes() {
        } else if in_fm {
        } else if crate::outline::is_fence(t) {
        } else if in_code || t.len() == 0 {
        } else {
            let c = cleaned_line(t);
            if c.len() > 0 {
                let st = speech_state(r, false, in_fm, in_code);
                assert(seq![c] + speech_pieces(r, false, in_fm, in_code) + speech_pieces(
                    b,
                    st.0,
                    st.1,
                    st.2,
                ) =~= seq![c] + (speech_pieces(r, false, in_fm, in_code) + speech_pieces(
                    b,
                    st.0,
                    st.1,
                    st.2,
                )));
            }
        }
    }
}

/// Lines read the same way when they are the same once trimmed.
proof fn lemma_speech_trim_equiv(l1: Seq<Seq<char>>, l2: Seq<Seq<char>>, first: bool, in_fm: bool, in_code: bool)
    requires
        l1.len() == l2.len(),
        forall|i: int| 0 <= i < l1.len() ==> trim(#[trigger] l1[i]) == trim(l2[i]),
    ensures
        speech_pieces(l1, first, in_fm, in_code) == speech_pieces(l2, first, in_fm, in_code),
        speech_state(l1, first, in_fm, in_code) == speech_state(l2, first, in_fm, in_code),
    decreases l1.len(),
{
    if l1.len() > 0 {
        let r1 = l1.drop_first();
        let r2 = l2.drop_first();
        assert forall|i: int| 0 <= i < r1.len() implies trim(#[trigger] r1[i]) == trim(r2[i]) by {
            assert(r1[i] == l1[i + 1]);
            assert(r2[i] == l2[i + 1]);
        }
        assert(trim(l1[0]) == trim(l2[0]));
        let t = trim(l1[0]);
        lemma_speech_trim_equiv(r1, r2, false, true, in_code);
        lemma_speech_trim_equiv(r1, r2, false, !(t == three_dashes() || t == three_dots()), in_code);
        lemma_speech_trim_equiv(r1, r2, false, in_fm, !in_code);
        lemma_speech_trim_equiv(r1, r2, false, in_fm, in_code);
    }
}

/// Lines inside an open fence are not read, up to the closing fence, which
/// closes it.
proof fn lemma_code_lines_silent(c: Seq<Seq<char>>, close: Seq<char>)
    requires
        forall|i: int| 0 <= i < c.len() ==> !crate::outline::is_fence(trim(#[trigger] c[i])),
        crate::outline::is_fence(trim(close)),
    ensures
        speech_pieces(c.push(close), false, false, true) == Seq::<Seq<char>>::empty(),
    decreases c.len(),
{
    let l = c.push(close);
    if c.len() == 0 {
        assert(l.drop_first() =~= Seq::<Seq<char>>::empty());
        assert(l[0] == close);
        assert(speech_pieces(l.drop_first(), false, false, false) =~= Seq::<Seq<char>>::empty());
    } else {
        let r = c.drop_first();
        assert forall|i: int| 0 <= i < r.len() implies !crate::outline::is_fence(trim(#[trigger] r[i])) by {
            assert(r[i] == c[i + 1]);
        }
        lemma_code_lines_silent(r, close);
        assert(l.drop_first() =~= r.push(close));
        assert(l[0] == c[0]);
        assert(!crate::outline::is_fence(trim(c[0])));
    }
}

pub open spec fn backticks() -> Seq<char> {
    seq!['`', '`', '`']
}

/// `md` followed by a fenced code block holding `code`:
/// `format!("{md}\n```\n{code}\n```\n")`.
pub open spec fn with_code_block(md: Seq<char>, code: Seq<char>) -> Seq<char> {
    md + seq!['\n'] + backticks() + seq!['\n'] + code + seq!['\n'] + backticks() + seq!['\n']
}

pub open spec fn tildes() -> Seq<char> {
    seq!['~', '~', '~']
}

/// `md` followed by a code block holding `code` fenced by `fence`:
/// `format!("{md}\n{fence}\n{code}\n{fence}\n")`.
pub open spec fn with_fenced_block(md: Seq<char>, fence: Seq<char>, code: Seq<char>) -> Seq<char> {
    md + seq!['\n'] + fence + seq!['\n'] + code + seq!['\n'] + fence + seq!['\n']
}

/// A code block fenced by ``` or by ~~~, appended to a document that leaves
/// no front matter and no fence open, is never read aloud, as long as no
/// line of the code starts, once trimmed, with ``` or ~~~ itself.
pub proof fn lemma_fenced_block_not_read(md: Seq<char>, fence: Seq<char>, code: Seq<char>)
    requires
        fence == backticks() || fence == tildes(),
        !speech_state(str_lines(md), true, false, false).1,
        !speech_state(str_lines(md), true, false, false).2,
        forall|i: int|
            0 <= i < split_nl(code).len() ==> !backticks().is_prefix_of(
                trim(#[trigger] split_nl(code)[i]),
            ) && !tildes().is_prefix_of(trim(split_nl(code)[i])),
    ensures
        speech_text(with_fenced_block(md, fence, code)) == speech_text(md),
{
    let f = fence;
    let nl = seq!['\n'];
    let e = Seq::<char>::empty();
    assert(('`' as u32) == 96 && ('~' as u32) == 126);
    assert(f.len() == 3 && f[1] == f[0] && f[2] == f[0] && (f[0] == '`' || f[0] == '~'));
    lemma_split_nl_single(f);
    assert(f + nl + e =~= f + nl);
    lemma_split_nl_concat(f, e);
    assert(split_nl(e) =~= seq![e]);
    let t3 = f + nl;
    assert(split_nl(t3) =~= seq![f, e]);
    let t2 = code + nl + t3;
    lemma_split_nl_concat(code, t3);
    let t1 = f + nl + t2;
    lemma_split_nl_concat(f, t2);
    let md2 = md + nl + t1;
    lemma_split_nl_concat(md, t1);
    assert(with_fenced_block(md, f, code) =~= md2);
    let p = split_nl(md);
    let q = split_nl(code);
    lemma_split_nl_nonempty(md);
    let pieces = p + seq![f] + q + seq![f, e];
    assert(split_nl(md2) =~= pieces);
    // the trimmed fence is the fence itself
    assert(!is_ws(f[0]) && !is_ws(f[2]));
    assert(strip_start(f, CharSet::Whitespace) == f);
    assert(strip_end(f, CharSet::Whitespace) == f);
    assert(trim(f) == f);
    assert(crate::outline::is_fence(f)) by {
        if f[0] == '`' {
            assert(seq!['`', '`', '`'] =~= f.subrange(0, 3));
        } else {
            assert(seq!['~', '~', '~'] =~= f.subrange(0, 3));
        }
    }
    assert(strip_cr(f) == f);
    let qm = q.map_values(|l: Seq<char>| strip_cr(l));
    let rr = seq![f] + qm + seq![f];
    let lines2 = str_lines(md2);
    assert(pieces.last() =~= e);
    assert(pieces.drop_last() =~= p + seq![f] + q + seq![f]);
    let pm = p.map_values(|l: Seq<char>| strip_cr(l));
    assert(lines2 =~= pm + rr);
    // the code lines and the closing fence say nothing
    assert forall|i: int| 0 <= i < qm.len() implies !crate::outline::is_fence(trim(#[trigger] qm[i])) by {
        lemma_trim_strip_cr(q[i]);
        assert(!backticks().is_prefix_of(trim(q[i])) && !tildes().is_prefix_of(trim(q[i])));
    }
    lemma_code_lines_silent(qm, f);
    assert(seq![f] + qm + seq![f] =~= seq![f] + qm.push(f));
    assert(rr.drop_first() =~= qm.push(f));
    assert(rr[0] == f);
    assert(forall|fst: bool| speech_pieces(rr, fst, false, false) == speech_pieces(
        qm.push(f),
        false,
        false,
        true,
    ));
    let lmd = str_lines(md);
    let st = speech_state(lmd, true, false, false);
    if p.last().len() > 0 {
        assert(lmd =~= p.drop_last().map_values(|l: Seq<char>| strip_cr(l)).push(p.last()));
        assert forall|i: int| 0 <= i < (pm + rr).len() implies trim(#[trigger] (pm + rr)[i]) == trim(
            (lmd + rr)[i],
        ) by {
            if i < p.len() - 1 {
            } else if i == p.len() - 1 {
                lemma_trim_strip_cr(p[i]);
            } else {
                assert((pm + rr)[i] == rr[i - p.len()]);
                assert((lmd + rr)[i] == rr[i - p.len()]);
            }
        }
        lemma_speech_trim_equiv(pm + rr, lmd + rr, true, false, false);
        lemma_speech_concat(lmd, rr, true, false, false);
        assert(speech_pieces(lines2, true, false, false) =~= speech_pieces(lmd, true, false, false));
    } else {
        assert(lmd =~= p.drop_last().map_values(|l: Seq<char>| strip_cr(l)));
        let er = seq![e] + rr;
        assert(p.last() =~= e);
        assert(strip_cr(e) =~= e);
        assert(pm =~= lmd.push(e)) by {
            assert forall|i: int| 0 <= i < pm.len() implies pm[i] == lmd.push(e)[i] by {
                if i == p.len() - 1 {
                    assert(p[i] == p.last());
                }
            }
        }
        assert(pm + rr =~= lmd + er);
        lemma_speech_concat(lmd, er, true, false, false);
        assert(trim(e) =~= e);
        assert(!crate::outline::is_fence(e));
        assert(er[0] == e);
        assert(er.drop_first() =~= rr);
        assert(speech_pieces(er, st.0, false, false) == speech_pieces(rr, false, false, false));
        assert(speech_pieces(lines2, true, false, false) =~= speech_pieces(lmd, true, false, false));
    }
}

/// A fenced code block appended to a document that leaves no front matter
/// and no fence open is never read aloud, as long as no line of the code
/// opens a fence itself.
pub proof fn lemma_code_block_not_read(md: Seq<char>, code: Seq<char>)
    requires
        !speech_state(str_lines(md), true, false, false).1,
        !speech_state(str_lines(md), true, false, false).2,
        forall|i: int|
            0 <= i < split_nl(code).len() ==> !crate::outline::is_fence(trim(#[trigger] split_nl(code)[i])),
    ensures
        speech_text(with_code_block(md, code)) == speech_text(md),
{
    assert(with_code_block(md, code) =~= with_fenced_block(md, backticks(), code));
    assert forall|i: int| 0 <= i < split_nl(code).len() implies !backticks().is_prefix_of(
        trim(#[trigger] split_nl(code)[i]),
    ) && !tildes().is_prefix_of(trim(split_nl(code)[i])) by {
        assert(!crate::outline::is_fence(trim(split_nl(code)[i])));
    }
    lemma_fenced_block_not_read(md, backticks(), code);
}

/// A line that starts, once trimmed, with ``` or ~~~ (an info string such as
/// ```rust after it or not) opens or closes a fenced code block: outside
/// front matter it is not read and flips whether code is being skipped.
pub proof fn lemma_fence_line_toggles(
    l: Seq<char>,
    rest: Seq<Seq<char>>,
    first: bool,
    in_code: bool,
)
    requires
        backticks().is_prefix_of(trim(l)) || tildes().is_prefix_of(trim(l)),
    ensures
        speech_pieces(seq![l] + rest, first, false, in_code) == speech_pieces(rest, false, false, !in_code),
        speech_state(seq![l] + rest, first, false, in_code) == speech_state(rest, false, false, !in_code),
{
    let t = trim(l);
    assert((seq![l] + rest)[0] == l);
    assert((seq![l] + rest).drop_first() =~= rest);
    assert(t != three_dashes()) by {
        assert(t[0] == '`' || t[0] == '~');
        assert(three_dashes()[0] == '-');
    }
    assert(crate::outline::is_fence(t));
}

/// Text without emphasis, code, strike-through or HTML marks.
pub open spec fn markup_free(s: Seq<char>) -> bool {
    forall|i: int| 0 <= i < s.len() ==> !is_markup_char(#[trigger] s[i])
}

pub proof fn lemma_without_markup_free(s: Seq<char>)
    ensures
        markup_free(without_markup(s)),
    decreases s.len(),
{
    if s.len() > 0 {
        lemma_without_markup_free(s.drop_last());
        let r = without_markup(s.drop_last());
        if !is_markup_char(s.last()) {
            assert forall|i: int| 0 <= i < r.push(s.last()).len() implies !is_markup_char(
                #[trigger] r.push(s.last())[i],
            ) by {
                if i < r.len() {
                    assert(r.push(s.last())[i] == r[i]);
                }
            }
        }
    }
}

proof fn lemma_join_markup_free(ws: Seq<Seq<char>>)
    requires
        forall|k: int| 0 <= k < ws.len() ==> markup_free(#[trigger] ws[k]),
    ensures
        markup_free(join_sp(ws)),
    decreases ws.len(),
{
    if ws.len() > 1 {
        let init = ws.drop_last();
        assert forall|k: int| 0 <= k < init.len() implies markup_free(#[trigger] init[k]) by {
            assert(init[k] == ws[k]);
        }
        lemma_join_markup_free(init);
        let j = join_sp(init) + seq![' '] + ws.last();
        assert(markup_free(ws.last()));
        assert forall|i: int| 0 <= i < j.len() implies !is_markup_char(#[trigger] j[i]) by {
            if i < join_sp(init).len() {
                assert(j[i] == join_sp(init)[i]);
            } else if i > join_sp(init).len() {
                assert(j[i] == ws.last()[i - join_sp(init).len() - 1]);
            }
        }
    } else if ws.len() == 1 {
        assert(markup_free(ws[0]));
    }
}

proof fn lemma_words_markup_free(s: Seq<char>)
    requires
        markup_free(s),
    ensures
        forall|k: int| 0 <= k < words(s).len() ==> markup_free(#[trigger] words(s)[k]),
    decreases s.len(),
{
    if s.len() > 0 {
        let t = s.drop_last();
        assert forall|i: int| 0 <= i < t.len() implies !is_markup_char(#[trigger] t[i]) by {
            assert(t[i] == s[i]);
        }
        lemma_words_markup_free(t);
        crate::text::lemma_words(t);
        let w = words(t);
        let c = s.last();
        assert(!is_markup_char(c));
        if !crate::text::is_ws(c) && s.len() >= 2 && !crate::text::is_ws(s[s.len() - 2]) {
            assert(t.last() == s[s.len() - 2]);
            let nw = w.last().push(c);
            assert(markup_free(w[w.len() - 1]));
            assert forall|i: int| 0 <= i < nw.len() implies !is_markup_char(#[trigger] nw[i]) by {
                if i < nw.len() - 1 {
                    assert(nw[i] == w[w.len() - 1][i]);
                }
            }
            let u = w.update(w.len() - 1, nw);
            assert forall|k: int| 0 <= k < u.len() implies markup_free(#[trigger] u[k]) by {
                if k < w.len() - 1 {
                    assert(u[k] == w[k]);
                }
            }
        } else if !crate::text::is_ws(c) {
            let u = w.push(seq![c]);
            assert forall|k: int| 0 <= k < u.len() implies markup_free(#[trigger] u[k]) by {
                if k < w.len() {
                    assert(u[k] == w[k]);
                }
            }
        }
    }
}

proof fn lemma_speech_pieces_free(lines: Seq<Seq<char>>, first: bool, in_fm: bool, in_code: bool)
    ensures
        forall|k: int|
            0 <= k < speech_pieces(lines, first, in_fm, in_code).len() ==> markup_free(
                #[trigger] speech_pieces(lines, first, in_fm, in_code)[k],
            ) && speech_pieces(lines, first, in_fm, in_code)[k].len() > 0,
    decreases lines.len(),
{
    if lines.len() > 0 {
        let t = trim(lines[0]);
        let rest = lines.drop_first();
        lemma_speech_pieces_free(rest, false, true, in_code);
        lemma_speech_pieces_free(rest, false, false, in_code);
        lemma_speech_pieces_free(rest, false, in_fm, !in_code);
        lemma_speech_pieces_free(rest, false, in_fm, in_code);
        let c = cleaned_line(t);
        lemma_without_markup_free(unlinked_from(
            without_list_marker(
                trim_start(strip_start(trim_start(strip_start(trim(t), CharSet::One('#'))), CharSet::One('>'))),
            ),
            0,
        ));
        let out = speech_pieces(lines, first, in_fm, in_code);
        let tail = speech_pieces(rest, false, in_fm, in_code);
        if first && t == three_dashes() {
            assert(out == speech_pieces(rest, false, true, in_code));
        } else if in_fm {
            let f2 = !(t == three_dashes() || t == three_dots());
            assert(out == speech_pieces(rest, false, f2, in_code));
        } else if crate::outline::is_fence(t) {
            assert(out == speech_pieces(rest, false, in_fm, !in_code));
        } else if in_code || t.len() == 0 {
            assert(out == tail);
        } else if c.len() > 0 {
            assert(out == seq![c] + tail);
            assert forall|k: int| 0 <= k < out.len() implies markup_free(#[trigger] out[k])
                && out[k].len() > 0 by {
                if k > 0 {
                    assert(out[k] == tail[k - 1]);
                }
            }
        } else {
            assert(out == tail);
        }
    }
}

/// The text read aloud is already normalized (its words joined by single
/// spaces, so no leading, trailing or repeated whitespace) and holds no
/// emphasis, code, strike-through or HTML marks.
pub proof fn lemma_speech_text_clean(markdown: Seq<char>)
    ensures
        speech_text(markdown) == join_sp(words(speech_text(markdown))),
        markup_free(speech_text(markdown)),
{
    let pieces = speech_pieces(str_lines(markdown), true, false, false);
    let joined = join_sp(pieces);
    lemma_speech_pieces_free(str_lines(markdown), true, false, false);
    lemma_join_markup_free(pieces);
    lemma_words_markup_free(joined);
    crate::text::lemma_words(joined);
    lemma_join_markup_free(words(joined));
    lemma_join_words_idempotent(words(joined));
}

} // verus!
