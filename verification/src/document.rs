//! A loaded Markdown document: front matter, image paths made absolute, the
//! table of contents and the byte ranges of its sections.

use vstd::prelude::*;

use crate::outline::{extract_toc, hash_at, lemma_toc_offsets, toc_items, toc_of, TocEntry};
use crate::text::{
    is_ws, lemma_strip_end_shape, lemma_strip_start_shape, in_set, strip_end, byte_len, char_boundary, chars_of, has_prefix,
    line_ranges, ordered_ranges, push_char,
    push_range, range_text, skip_start, str_byte_len, str_lines, strip_cr, string_of,
    strip_both, strip_range, strip_start, trim, trim_range, CharSet,
};

verus! {

// ── Image path resolution ─────────────────────────────────────────────────────

/// First index at or after `from` where `s` holds `c`.
pub open spec fn find_from(s: Seq<char>, from: int, c: char) -> Option<int>
    decreases s.len() - from,
{
    if from < 0 || from >= s.len() {
        None
    } else if s[from] == c {
        Some(from)
    } else {
        find_from(s, from + 1, c)
    }
}

pub proof fn lemma_find_from(s: Seq<char>, from: int, c: char)
    ensures
        find_from(s, from, c) matches Some(j) ==> from <= j < s.len() && s[j] == c,
        find_from(s, from, c) matches Some(j) ==> forall|k: int| from <= k < j ==> s[k] != c,
        from >= 0 && find_from(s, from, c) is None ==> forall|k: int| from <= k < s.len() ==> s[k]
            != c,
    decreases s.len() - from,
{
    if 0 <= from < s.len() && s[from] != c {
        lemma_find_from(s, from + 1, c);
    }
}

/// The `)` that closes a link target whose text starts at `i`, with `depth`
/// nested `(` still open; no match across a line break.
pub open spec fn closing_paren(s: Seq<char>, i: int, depth: nat) -> Option<int>
    decreases s.len() - i,
{
    if i < 0 || i >= s.len() {
        None
    } else if s[i] == '(' {
        closing_paren(s, i + 1, depth + 1)
    } else if s[i] == ')' {
        if depth == 0 {
            Some(i)
        } else {
            closing_paren(s, i + 1, (depth - 1) as nat)
        }
    } else if s[i] == '\n' {
        None
    } else {
        closing_paren(s, i + 1, depth)
    }
}

pub proof fn lemma_closing_paren(s: Seq<char>, i: int, depth: nat)
    ensures
        closing_paren(s, i, depth) matches Some(j) ==> i <= j < s.len() && s[j] == ')',
    decreases s.len() - i,
{
    if 0 <= i < s.len() {
        if s[i] == '(' {
            lemma_closing_paren(s, i + 1, depth + 1);
        } else if s[i] == ')' {
            if depth > 0 {
                lemma_closing_paren(s, i + 1, (depth - 1) as nat);
            }
        } else if s[i] != '\n' {
            lemma_closing_paren(s, i + 1, depth);
        }
    }
}

/// `![alt](target)` starting at `i`: the bounds of `target`.
pub open spec fn image_at(s: Seq<char>, i: int) -> Option<(int, int)> {
    if 0 <= i && i + 1 < s.len() && s[i] == '!' && s[i + 1] == '[' {
        match find_from(s, i + 2, ']') {
            Some(bc) => if bc + 1 < s.len() && s[bc + 1] == '(' {
                match closing_paren(s, bc + 2, 0) {
                    Some(pc) => Some((bc + 2, pc)),
                    None => None,
                }
            } else {
                None
            },
            None => None,
        }
    } else {
        None
    }
}

pub proof fn lemma_image_at(s: Seq<char>, i: int)
    ensures
        image_at(s, i) matches Some((ps, pc)) ==> i + 3 <= ps <= pc < s.len() && s[pc] == ')'
            && s[ps - 1] == '(' && s[ps - 2] == ']',
{
    lemma_find_from(s, i + 2, ']');
    if let Some(bc) = find_from(s, i + 2, ']') {
        lemma_closing_paren(s, bc + 2, 0);
    }
}

/// Index of the first space or tab.
pub open spec fn find_blank(s: Seq<char>, from: int) -> Option<int>
    decreases s.len() - from,
{
    if from < 0 || from >= s.len() {
        None
    } else if s[from] == ' ' || s[from] == '\t' {
        Some(from)
    } else {
        find_blank(s, from + 1)
    }
}

/// `path "optional title"` split into the path and the title, both trimmed.
pub open spec fn path_and_title(s: Seq<char>) -> (Seq<char>, Seq<char>) {
    match find_blank(s, 0) {
        Some(sp) => (trim(s.subrange(0, sp)), trim(s.subrange(sp, s.len() as int))),
        None => (trim(s), Seq::empty()),
    }
}

pub open spec fn http_prefix() -> Seq<char> {
    seq!['h', 't', 't', 'p', ':', '/', '/']
}

pub open spec fn https_prefix() -> Seq<char> {
    seq!['h', 't', 't', 'p', 's', ':', '/', '/']
}

pub open spec fn file_prefix() -> Seq<char> {
    seq!['f', 'i', 'l', 'e', ':', '/', '/']
}

pub open spec fn data_prefix() -> Seq<char> {
    seq!['d', 'a', 't', 'a', ':']
}

/// A relative local path: not empty, not a URL, not absolute, not an anchor.
pub open spec fn is_relative_path(p: Seq<char>) -> bool {
    &&& p.len() > 0
    &&& !http_prefix().is_prefix_of(p)
    &&& !https_prefix().is_prefix_of(p)
    &&& !file_prefix().is_prefix_of(p)
    &&& p[0] != '/'
    &&& p[0] != '#'
    &&& !data_prefix().is_prefix_of(p)
}

/// `base.join(rel)` for a relative `rel`, as text (`PathBuf::push` on Unix:
/// a `/` is put between unless `base` is empty or already ends with one).
pub open spec fn join_path(base: Seq<char>, rel: Seq<char>) -> Seq<char> {
    if base.len() == 0 || base.last() == '/' {
        base + rel
    } else {
        base + seq!['/'] + rel
    }
}

/// The rewritten target of an image, including the closing `)`.
pub open spec fn rewritten_target(base: Seq<char>, path: Seq<char>, title: Seq<char>) -> Seq<
    char,
> {
    file_prefix() + join_path(base, path) + (if title.len() > 0 {
        seq![' '] + title
    } else {
        Seq::empty()
    }) + seq![')']
}

/// `s[i..]` with every relative image path made an absolute `file://` URI.
pub open spec fn resolve_from(s: Seq<char>, base: Seq<char>, i: int) -> Seq<char>
    decreases s.len() - i,
{
    if i < 0 || i >= s.len() {
        Seq::empty()
    } else {
        proof {
            lemma_image_at(s, i);
        }
        match image_at(s, i) {
            Some((ps, pc)) => {
                let (path, title) = path_and_title(s.subrange(ps, pc));
                if is_relative_path(path) {
                    s.subrange(i, ps) + rewritten_target(base, path, title) + resolve_from(
                        s,
                        base,
                        pc + 1,
                    )
                } else {
                    seq![s[i]] + resolve_from(s, base, i + 1)
                }
            },
            None => seq![s[i]] + resolve_from(s, base, i + 1),
        }
    }
}

/// The depth after walking `x` from depth `d` through `(` and `)`, or
/// nothing when a `)` meets depth 0 or a newline comes first.
pub open spec fn paren_walk(x: Seq<char>, d: nat) -> Option<nat>
    decreases x.len(),
{
    if x.len() == 0 {
        Some(d)
    } else if x[0] == '(' {
        paren_walk(x.drop_first(), d + 1)
    } else if x[0] == ')' {
        if d == 0 {
            None
        } else {
            paren_walk(x.drop_first(), (d - 1) as nat)
        }
    } else if x[0] == '\n' {
        None
    } else {
        paren_walk(x.drop_first(), d)
    }
}

proof fn lemma_walk_concat(x: Seq<char>, y: Seq<char>, d: nat)
    ensures
        paren_walk(x + y, d) == match paren_walk(x, d) {
            Some(e) => paren_walk(y, e),
            None => None,
        },
    decreases x.len(),
{
    if x.len() == 0 {
        assert(x + y =~= y);
    } else {
        assert((x + y)[0] == x[0]);
        assert((x + y).drop_first() =~= x.drop_first() + y);
        if x[0] == '(' {
            lemma_walk_concat(x.drop_first(), y, d + 1);
        } else if x[0] == ')' {
            if d > 0 {
                lemma_walk_concat(x.drop_first(), y, (d - 1) as nat);
            }
        } else if x[0] != '\n' {
            lemma_walk_concat(x.drop_first(), y, d);
        }
    }
}

/// Text without parentheses or newlines leaves the depth as it is.
proof fn lemma_walk_plain(x: Seq<char>, d: nat)
    requires
        forall|k: int| 0 <= k < x.len() ==> x[k] != '(' && x[k] != ')' && x[k] != '\n',
    ensures
        paren_walk(x, d) == Some(d),
    decreases x.len(),
{
    if x.len() > 0 {
        let y = x.drop_first();
        assert forall|k: int| 0 <= k < y.len() implies y[k] != '(' && y[k] != ')' && y[k] != '\n' by {
            assert(y[k] == x[k + 1]);
        }
        assert(x[0] != '(' && x[0] != ')' && x[0] != '\n');
        lemma_walk_plain(y, d);
    }
}

/// Whitespace that the walk passes leaves the depth as it is.
proof fn lemma_walk_blank(x: Seq<char>, d: nat)
    requires
        forall|k: int| 0 <= k < x.len() ==> is_ws(#[trigger] x[k]),
        paren_walk(x, d) is Some,
    ensures
        paren_walk(x, d) == Some(d),
{
    assert(('(' as u32) == 40 && (')' as u32) == 41);
    assert forall|k: int| 0 <= k < x.len() implies x[k] != '(' && x[k] != ')' && x[k] != '\n' by {
        assert(is_ws(x[k]));
        if x[k] == '\n' {
            lemma_walk_no_newline(x, d, k);
        }
    }
    lemma_walk_plain(x, d);
}

proof fn lemma_walk_no_newline(x: Seq<char>, d: nat, k: int)
    requires
        0 <= k < x.len(),
        x[k] == '\n',
    ensures
        paren_walk(x, d) is None,
    decreases x.len(),
{
    if x[0] == '\n' {
    } else if k > 0 {
        let y = x.drop_first();
        assert(y[k - 1] == '\n');
        lemma_walk_no_newline(y, d + 1, k - 1);
        lemma_walk_no_newline(y, d, k - 1);
        if d > 0 {
            lemma_walk_no_newline(y, (d - 1) as nat, k - 1);
        }
    }
}

/// A stretch the walk passes moves the search for the closing `)` past it.
proof fn lemma_closing_walk(s: Seq<char>, i: int, x: Seq<char>, d: nat)
    requires
        0 <= i,
        i + x.len() <= s.len(),
        s.subrange(i, i + x.len()) == x,
        paren_walk(x, d) is Some,
    ensures
        closing_paren(s, i, d) == closing_paren(s, i + x.len(), paren_walk(x, d).unwrap()),
    decreases x.len(),
{
    if x.len() > 0 {
        assert(s[i] == x[0]);
        let y = x.drop_first();
        assert(s.subrange(i + 1, i + 1 + y.len()) =~= y);
        if x[0] == '(' {
            lemma_closing_walk(s, i + 1, y, d + 1);
        } else if x[0] == ')' {
            lemma_closing_walk(s, i + 1, y, (d - 1) as nat);
        } else {
            lemma_closing_walk(s, i + 1, y, d);
        }
    }
}

/// The text before the closing `)` walks back to depth 0.
proof fn lemma_closing_found(s: Seq<char>, i: int, d: nat)
    ensures
        closing_paren(s, i, d) matches Some(pc) ==> i <= pc < s.len() && s[pc] == ')'
            && paren_walk(s.subrange(i, pc), d) == Some(0nat),
    decreases s.len() - i,
{
    if 0 <= i < s.len() {
        let nd: nat = if s[i] == '(' {
            d + 1
        } else if s[i] == ')' && d > 0 {
            (d - 1) as nat
        } else {
            d
        };
        lemma_closing_found(s, i + 1, nd);
        if let Some(pc) = closing_paren(s, i, d) {
            if !(s[i] == ')' && d == 0) {
                assert(s.subrange(i, pc).drop_first() =~= s.subrange(i + 1, pc));
                assert(s.subrange(i, pc)[0] == s[i]);
            } else {
                assert(s.subrange(i, pc) =~= Seq::<char>::empty());
            }
        }
    }
}

/// `![` starts at index `k` of `x`.
pub open spec fn image_opens_at(x: Seq<char>, k: int) -> bool {
    0 <= k && k + 1 < x.len() && x[k] == '!' && x[k + 1] == '['
}

/// `![` occurs at most once in `s`.
pub open spec fn one_image_start(s: Seq<char>) -> bool {
    forall|j: int, k: int| image_opens_at(s, j) && image_opens_at(s, k) ==> j == k
}

spec fn no_image_open(x: Seq<char>) -> bool {
    forall|k: int| !image_opens_at(x, k)
}

/// A folder path without parentheses, `[`, blanks or newlines.
pub open spec fn plain_base(b: Seq<char>) -> bool {
    forall|k: int|
        0 <= k < b.len() ==> b[k] != '(' && b[k] != ')' && b[k] != '[' && b[k] != ' ' && b[k]
            != '\t' && b[k] != '\n'
}

/// An image whose path is rewritten starts at `i`.
pub open spec fn rewrites_at(s: Seq<char>, i: int) -> bool {
    match image_at(s, i) {
        Some((ps, pc)) => is_relative_path(path_and_title(s.subrange(ps, pc)).0),
        None => false,
    }
}

proof fn lemma_resolve_copy(s: Seq<char>, base: Seq<char>, j: int, k: int)
    requires
        0 <= j <= k <= s.len(),
        forall|m: int| j <= m < k ==> !rewrites_at(s, m),
    ensures
        resolve_from(s, base, j) == s.subrange(j, k) + resolve_from(s, base, k),
    decreases k - j,
{
    if j < k {
        lemma_resolve_copy(s, base, j + 1, k);
        assert(!rewrites_at(s, j));
        assert(resolve_from(s, base, j) == seq![s[j]] + resolve_from(s, base, j + 1));
        assert(s.subrange(j, k) =~= seq![s[j]] + s.subrange(j + 1, k));
    } else {
        assert(s.subrange(j, k) =~= Seq::<char>::empty());
    }
}

proof fn lemma_open_concat(x: Seq<char>, y: Seq<char>, m: int)
    requires
        image_opens_at(x + y, m),
    ensures
        (m + 1 < x.len() && image_opens_at(x, m)) || (m >= x.len() && image_opens_at(
            y,
            m - x.len(),
        )) || (m == x.len() - 1 && x[m] == '!' && y.len() > 0 && y[0] == '['),
{
    if m + 1 < x.len() {
        assert((x + y)[m] == x[m] && (x + y)[m + 1] == x[m + 1]);
    } else if m >= x.len() {
        assert((x + y)[m] == y[m - x.len()] && (x + y)[m + 1] == y[m + 1 - x.len()]);
    } else {
        assert((x + y)[m] == x[m] && (x + y)[m + 1] == y[0]);
    }
}

proof fn lemma_no_open_concat(x: Seq<char>, y: Seq<char>)
    requires
        no_image_open(x),
        no_image_open(y),
        x.len() == 0 || y.len() == 0 || x.last() != '!' || y[0] != '[',
    ensures
        no_image_open(x + y),
{
    assert forall|m: int| !image_opens_at(x + y, m) by {
        if image_opens_at(x + y, m) {
            lemma_open_concat(x, y, m);
            assert(!image_opens_at(x, m) && !image_opens_at(y, m - x.len()));
        }
    }
}

proof fn lemma_no_open_plain(x: Seq<char>)
    requires
        forall|k: int| 0 <= k < x.len() ==> x[k] != '[',
    ensures
        no_image_open(x),
{
    assert forall|m: int| !image_opens_at(x, m) by {
        if image_opens_at(x, m) {
            assert(x[m + 1] == '[');
        }
    }
}

/// A stretch of `s` after its only `![` holds no `![`.
proof fn lemma_no_open_after(s: Seq<char>, i0: int, lo: int, hi: int)
    requires
        one_image_start(s),
        image_opens_at(s, i0),
        i0 < lo <= hi <= s.len(),
    ensures
        no_image_open(s.subrange(lo, hi)),
{
    let x = s.subrange(lo, hi);
    assert forall|q: int| !image_opens_at(x, q) by {
        if image_opens_at(x, q) {
            assert(x[q] == s[lo + q] && x[q + 1] == s[lo + q + 1]);
            assert(image_opens_at(s, lo + q));
        }
    }
}

proof fn lemma_find_from_agree(s: Seq<char>, t: Seq<char>, from: int, c: char, j: int)
    requires
        0 <= from <= j < s.len(),
        j < t.len(),
        find_from(s, from, c) == Some(j),
        forall|k: int| from <= k <= j ==> s[k] == t[k],
    ensures
        find_from(t, from, c) == Some(j),
    decreases j - from,
{
    lemma_find_from(s, from, c);
    if from < j {
        lemma_find_from_agree(s, t, from + 1, c, j);
    }
}

proof fn lemma_find_blank(x: Seq<char>, from: int)
    ensures
        find_blank(x, from) matches Some(j) ==> from <= j < x.len() && (x[j] == ' ' || x[j]
            == '\t') && forall|k: int| from <= k < j ==> x[k] != ' ' && x[k] != '\t',
        from >= 0 && find_blank(x, from) is None ==> forall|k: int|
            from <= k < x.len() ==> x[k] != ' ' && x[k] != '\t',
    decreases x.len() - from,
{
    if 0 <= from < x.len() && !(x[from] == ' ' || x[from] == '\t') {
        lemma_find_blank(x, from + 1);
    }
}

proof fn lemma_find_blank_first(x: Seq<char>, from: int, j: int)
    requires
        0 <= from <= j < x.len(),
        x[j] == ' ',
        forall|k: int| from <= k < j ==> x[k] != ' ' && x[k] != '\t',
    ensures
        find_blank(x, from) == Some(j),
    decreases j - from,
{
    if from < j {
        lemma_find_blank_first(x, from + 1, j);
    }
}

proof fn lemma_find_blank_none(x: Seq<char>, from: int)
    requires
        0 <= from,
        forall|k: int| from <= k < x.len() ==> x[k] != ' ' && x[k] != '\t',
    ensures
        find_blank(x, from) is None,
    decreases x.len() - from,
{
    if from < x.len() {
        lemma_find_blank_none(x, from + 1);
    }
}

/// `trim(x)` is `x[a..a + len]`, with only whitespace around it.
proof fn lemma_trim_shape(x: Seq<char>) -> (a: int)
    ensures
        0 <= a <= a + trim(x).len() <= x.len(),
        trim(x) == x.subrange(a, a + trim(x).len()),
        forall|k: int| 0 <= k < a ==> is_ws(#[trigger] x[k]),
        forall|k: int| a + trim(x).len() <= k < x.len() ==> is_ws(#[trigger] x[k]),
{
    lemma_strip_start_shape(x, CharSet::Whitespace);
    let y = strip_start(x, CharSet::Whitespace);
    lemma_strip_end_shape(y, CharSet::Whitespace);
    let a = x.len() - y.len();
    let n = trim(x).len();
    assert(trim(x) =~= x.subrange(a, a + n));
    assert forall|k: int| a + n <= k < x.len() implies is_ws(#[trigger] x[k]) by {
        assert(x[k] == y[k - a]);
        assert(in_set(CharSet::Whitespace, y[k - a]));
    }
    assert forall|k: int| 0 <= k < a implies is_ws(#[trigger] x[k]) by {
        assert(in_set(CharSet::Whitespace, x[k]));
    }
    a
}

/// The Markdown `s` with relative image paths resolved against `base`.
pub open spec fn resolved(s: Seq<char>, base: Seq<char>) -> Seq<char> {
    resolve_from(s, base, 0)
}

fn find_byte(v: &Vec<char>, from: usize, target: char) -> (r: Option<usize>)
    requires
        from <= v.len(),
    ensures
        match r {
            Some(j) => find_from(v@, from as int, target) == Some(j as int),
            None => find_from(v@, from as int, target) is None,
        },
{
    let mut i = from;
    while i < v.len()
        invariant
            from <= i <= v.len(),
            find_from(v@, from as int, target) == find_from(v@, i as int, target),
        decreases v.len() - i,
    {
        if v[i] == target {
            return Some(i);
        }
        i += 1;
    }
    None
}

/// First index in `from..hi` where `v` holds `c`, as a search in
/// `v[lo..hi]`.
pub(crate) fn find_char(v: &Vec<char>, lo: usize, hi: usize, from: usize, c: char) -> (r: Option<usize>)
    requires
        lo <= from <= hi <= v.len(),
    ensures
        match r {
            Some(j) => from <= j < hi && find_from(v@.subrange(lo as int, hi as int), from - lo, c)
                == Some(j - lo),
            None => find_from(v@.subrange(lo as int, hi as int), from - lo, c) is None,
        },
{
    let ghost s = v@.subrange(lo as int, hi as int);
    let mut i = from;
    while i < hi
        invariant
            lo <= from <= i <= hi <= v.len(),
            s == v@.subrange(lo as int, hi as int),
            find_from(s, from - lo, c) == find_from(s, i - lo, c),
        decreases hi - i,
    {
        assert(s[i - lo] == v@[i as int]);
        if v[i] == c {
            return Some(i);
        }
        i += 1;
    }
    None
}

/// Find the `)` that closes the markdown link, skipping over nested `(...)`.
fn find_closing_paren(v: &Vec<char>, from: usize) -> (r: Option<usize>)
    requires
        from <= v.len(),
    ensures
        match r {
            Some(j) => closing_paren(v@, from as int, 0) == Some(j as int),
            None => closing_paren(v@, from as int, 0) is None,
        },
{
    let mut depth: usize = 0;
    let mut i = from;
    while i < v.len()
        invariant
            from <= i <= v.len(),
            depth <= i - from,
            closing_paren(v@, from as int, 0) == closing_paren(v@, i as int, depth as nat),
        decreases v.len() - i,
    {
        let b = v[i];
        if b == '(' {
            depth += 1;
        } else if b == ')' {
            if depth == 0 {
                return Some(i);
            }
            depth -= 1;
        } else if b == '\n' {
            return None;
        }
        i += 1;
    }
    None
}

/// Split `path "optional title"` into the bounds of the path and of the title.
fn split_path_and_title(v: &Vec<char>, lo: usize, hi: usize) -> (r: ((usize, usize), (usize, usize)))
    requires
        lo <= hi <= v.len(),
    ensures
        lo <= r.0.0 <= r.0.1 <= hi,
        lo <= r.1.0 <= r.1.1 <= hi,
        path_and_title(v@.subrange(lo as int, hi as int)) == (
            v@.subrange(r.0.0 as int, r.0.1 as int),
            v@.subrange(r.1.0 as int, r.1.1 as int),
        ),
{
    let ghost s = v@.subrange(lo as int, hi as int);
    let mut i = lo;
    while i < hi
        invariant
            lo <= i <= hi <= v.len(),
            s == v@.subrange(lo as int, hi as int),
            find_blank(s, 0) == find_blank(s, i - lo),
        decreases hi - i,
    {
        if v[i] == ' ' || v[i] == '\t' {
            let p = trim_range(v, lo, i);
            let t = trim_range(v, i, hi);
            assert(s.subrange(0, i - lo) =~= v@.subrange(lo as int, i as int));
            assert(s.subrange(i - lo, s.len() as int) =~= v@.subrange(i as int, hi as int));
            return (p, t);
        }
        i += 1;
    }
    let p = trim_range(v, lo, hi);
    assert(v@.subrange(hi as int, hi as int) =~= Seq::<char>::empty());
    (p, (hi, hi))
}

fn should_rewrite(v: &Vec<char>, lo: usize, hi: usize) -> (b: bool)
    requires
        lo <= hi <= v.len(),
    ensures
        b == is_relative_path(v@.subrange(lo as int, hi as int)),
{
    let http = vec!['h', 't', 't', 'p', ':', '/', '/'];
    let https = vec!['h', 't', 't', 'p', 's', ':', '/', '/'];
    let file = vec!['f', 'i', 'l', 'e', ':', '/', '/'];
    let data = vec!['d', 'a', 't', 'a', ':'];
    assert(http@ =~= http_prefix());
    assert(https@ =~= https_prefix());
    assert(file@ =~= file_prefix());
    assert(data@ =~= data_prefix());
    hi > lo && !has_prefix(v, lo, hi, &http) && !has_prefix(v, lo, hi, &https) && !has_prefix(
        v,
        lo,
        hi,
        &file,
    ) && v[lo] != '/' && v[lo] != '#' && !has_prefix(v, lo, hi, &data)
}

/// The bounds of the target of an image link that starts at `i`, if one does.
fn image_target_at(v: &Vec<char>, i: usize) -> (r: Option<(usize, usize)>)
    requires
        i < v.len(),
    ensures
        match r {
            Some((ps, pc)) => image_at(v@, i as int) == Some((ps as int, pc as int)),
            None => image_at(v@, i as int) is None,
        },
{
    let len = v.len();
    // Look for `![`
    if i + 1 < len && v[i] == '!' && v[i + 1] == '[' {
        // Find the closing `](`
        if let Some(bracket_close) = find_byte(v, i + 2, ']') {
            proof {
                lemma_find_from(v@, i + 2, ']');
            }
            if bracket_close + 1 < len && v[bracket_close + 1] == '(' {
                let path_start = bracket_close + 2;
                if let Some(paren_close) = find_closing_paren(v, path_start) {
                    return Some((path_start, paren_close));
                }
            }
        }
    }
    None
}

/// Appends `file://`, the joined path, the title if any, and `)`.
fn push_rewritten_target(
    out: &mut String,
    bv: &Vec<char>,
    v: &Vec<char>,
    pp: (usize, usize),
    tp: (usize, usize),
)
    requires
        pp.0 <= pp.1 <= v.len(),
        tp.0 <= tp.1 <= v.len(),
    ensures
        final(out)@ == old(out)@ + rewritten_target(
            bv@,
            v@.subrange(pp.0 as int, pp.1 as int),
            v@.subrange(tp.0 as int, tp.1 as int),
        ),
{
    let ghost mark = out@;
    push_char(out, 'f');
    push_char(out, 'i');
    push_char(out, 'l');
    push_char(out, 'e');
    push_char(out, ':');
    push_char(out, '/');
    push_char(out, '/');
    assert(out@ =~= mark + file_prefix());
    let ghost mark2 = out@;
    push_range(out, bv, 0, bv.len());
    assert(bv@.subrange(0, bv@.len() as int) =~= bv@);
    if bv.len() > 0 && bv[bv.len() - 1] != '/' {
        push_char(out, '/');
    }
    push_range(out, v, pp.0, pp.1);
    assert(out@ =~= mark2 + join_path(bv@, v@.subrange(pp.0 as int, pp.1 as int)));
    let ghost mark3 = out@;
    if tp.1 > tp.0 {
        push_char(out, ' ');
        push_range(out, v, tp.0, tp.1);
        assert(out@ =~= mark3 + seq![' '] + v@.subrange(tp.0 as int, tp.1 as int));
    } else {
        assert(out@ =~= mark3 + Seq::<char>::empty());
    }
    push_char(out, ')');
    assert(out@ =~= mark + rewritten_target(
        bv@,
        v@.subrange(pp.0 as int, pp.1 as int),
        v@.subrange(tp.0 as int, tp.1 as int),
    ));
}

/// Replace relative image paths with absolute `file://` URIs so the viewer
/// can load them regardless of the process working directory.
///
/// Handles both `![alt](path)` and `![alt](path "title")`.
pub fn resolve_image_paths(src: &str, base: &str) -> (out: String)
    ensures
        out@ == resolved(src@, base@),
{
    let v = chars_of(src);
    let bv = chars_of(base);
    let mut out = String::new();
    let len = v.len();
    let mut i: usize = 0;
    assert(out@ + resolve_from(v@, bv@, 0) =~= resolve_from(v@, bv@, 0));
    while i < len
        invariant
            len == v@.len(),
            bv@ == base@,
            i <= len,
            out@ + resolve_from(v@, bv@, i as int) == resolve_from(v@, bv@, 0),
        decreases len - i,
    {
        proof {
            lemma_image_at(v@, i as int);
        }
        let ghost before = out@;
        if let Some((path_start, paren_close)) = image_target_at(&v, i) {
            // Separate optional title `"..."` from the path
            let (pp, tp) = split_path_and_title(&v, path_start, paren_close);
            if should_rewrite(&v, pp.0, pp.1) {
                // Everything up to and including `](`, then the new target
                push_range(&mut out, &v, i, path_start);
                push_rewritten_target(&mut out, &bv, &v, pp, tp);
                proof {
                    let tail = resolve_from(v@, bv@, paren_close + 1);
                    assert(resolve_from(v@, bv@, i as int) == v@.subrange(i as int, path_start as int)
                        + rewritten_target(
                        bv@,
                        v@.subrange(pp.0 as int, pp.1 as int),
                        v@.subrange(tp.0 as int, tp.1 as int),
                    ) + tail);
                    assert(out@ + tail =~= before + resolve_from(v@, bv@, i as int));
                }
                i = paren_close + 1;
                continue;
            }
        }
        push_char(&mut out, v[i]);
        assert(out@ + resolve_from(v@, bv@, i + 1) =~= before + resolve_from(v@, bv@, i as int));
        i += 1;
    }
    assert(out@ =~= out@ + resolve_from(v@, bv@, i as int));
    out
}

// ── Front matter ──────────────────────────────────────────────────────────────

/// A key-value pair from YAML frontmatter.
#[derive(Debug, Clone)]
pub struct FrontmatterEntry {
    pub key: String,
    pub value: String,
}

impl FrontmatterEntry {
    pub open spec fn pair(&self) -> (Seq<char>, Seq<char>) {
        (self.key@, self.value@)
    }
}

pub open spec fn entry_pairs(v: Seq<FrontmatterEntry>) -> Seq<(Seq<char>, Seq<char>)> {
    v.map_values(|e: FrontmatterEntry| e.pair())
}

/// The `key: value` a YAML line holds: blank lines, comments and lines without
/// a colon hold none. The value loses surrounding `"` and then `'` quotes.
pub open spec fn yaml_entry(line: Seq<char>) -> Option<(Seq<char>, Seq<char>)> {
    let t = trim(line);
    if t.len() == 0 || t[0] == '#' {
        None
    } else {
        match find_from(t, 0, ':') {
            Some(c) => Some(
                (
                    trim(t.subrange(0, c)),
                    strip_both(
                        strip_both(trim(t.subrange(c + 1, t.len() as int)), CharSet::One('"')),
                        CharSet::One('\''),
                    ),
                ),
            ),
            None => None,
        }
    }
}

pub open spec fn yaml_entries(lines: Seq<Seq<char>>) -> Seq<(Seq<char>, Seq<char>)>
    decreases lines.len(),
{
    if lines.len() == 0 {
        Seq::empty()
    } else {
        let rest = yaml_entries(lines.drop_first());
        match yaml_entry(lines[0]) {
            Some(e) => seq![e] + rest,
            None => rest,
        }
    }
}

/// Simple `key: value` lines of a YAML block, in order.
pub open spec fn simple_yaml(block: Seq<char>) -> Seq<(Seq<char>, Seq<char>)> {
    yaml_entries(str_lines(block))
}

fn yaml_line(v: &Vec<char>, a: usize, b: usize) -> (r: Option<FrontmatterEntry>)
    requires
        a <= b <= v.len(),
    ensures
        match r {
            Some(e) => yaml_entry(v@.subrange(a as int, b as int)) == Some(e.pair()),
            None => yaml_entry(v@.subrange(a as int, b as int)) is None,
        },
{
    let (ta, tb) = trim_range(v, a, b);
    let ghost t = v@.subrange(ta as int, tb as int);
    if ta == tb || v[ta] == '#' {
        return None;
    }
    match find_byte(v, ta, ':') {
        Some(c) if c < tb => {
            proof {
                lemma_find_from(v@, ta as int, ':');
                assert forall|j: int| 0 <= j < c - ta implies t[j] != ':' by {
                    assert(t[j] == v@[ta + j]);
                }
                lemma_find_from_first(t, 0, ':', c - ta);
            }
            let (ka, kb) = trim_range(v, ta, c);
            let (va, vb) = trim_range(v, c + 1, tb);
            let (qa, qb) = strip_range(v, va, vb, CharSet::One('"'));
            let (sa, sb) = strip_range(v, qa, qb, CharSet::One('\''));
            assert(t.subrange(0, c - ta) =~= v@.subrange(ta as int, c as int));
            assert(t.subrange(c - ta + 1, t.len() as int) =~= v@.subrange(c + 1, tb as int));
            Some(FrontmatterEntry { key: string_of(v, ka, kb), value: string_of(v, sa, sb) })
        },
        _ => {
            proof {
                lemma_find_from(v@, ta as int, ':');
                assert forall|j: int| 0 <= j < t.len() implies t[j] != ':' by {
                    assert(t[j] == v@[ta + j]);
                }
                lemma_find_from_none(t, 0, ':');
            }
            None
        },
    }
}

/// A search that meets no `c` before `j` and `c` at `j` answers `j`.
pub proof fn lemma_find_from_first(s: Seq<char>, from: int, c: char, j: int)
    requires
        0 <= from <= j < s.len(),
        s[j] == c,
        forall|k: int| from <= k < j ==> s[k] != c,
    ensures
        find_from(s, from, c) == Some(j),
    decreases j - from,
{
    if from < j {
        lemma_find_from_first(s, from + 1, c, j);
    }
}

/// A search in text without `c` answers nothing.
pub proof fn lemma_find_from_none(s: Seq<char>, from: int, c: char)
    requires
        0 <= from,
        forall|k: int| from <= k < s.len() ==> s[k] != c,
    ensures
        find_from(s, from, c) is None,
    decreases s.len() - from,
{
    if from < s.len() {
        lemma_find_from_none(s, from + 1, c);
    }
}

/// Parse simple `key: value` lines of `v[lo..hi]`.
/// Does not handle nested objects, arrays, or multi-line values.
fn parse_simple_yaml(v: &Vec<char>, lo: usize, hi: usize) -> (r: Vec<FrontmatterEntry>)
    requires
        lo <= hi <= v.len(),
    ensures
        entry_pairs(r@) == simple_yaml(v@.subrange(lo as int, hi as int)),
{
    let lines = line_ranges(v, lo, hi);
    let ghost l = str_lines(v@.subrange(lo as int, hi as int));
    let mut r: Vec<FrontmatterEntry> = Vec::new();
    let mut k: usize = 0;
    assert(l.subrange(0, l.len() as int) =~= l);
    assert(entry_pairs(r@) + yaml_entries(l) =~= yaml_entries(l));
    while k < lines.len()
        invariant
            lines@.len() == l.len(),
            lo <= hi <= v.len(),
            forall|j: int| 0 <= j < lines@.len() ==> range_text(v@, #[trigger] lines@[j]) == l[j],
            ordered_ranges(lines@, lo as int, hi as int),
            k <= lines@.len(),
            entry_pairs(r@) + yaml_entries(l.subrange(k as int, l.len() as int)) == yaml_entries(l),
        decreases lines@.len() - k,
    {
        let (a, b) = lines[k];
        let ghost before = entry_pairs(r@);
        let ghost rest = l.subrange(k as int, l.len() as int);
        assert(rest[0] == l[k as int]);
        assert(rest.drop_first() =~= l.subrange(k + 1, l.len() as int));
        assert(range_text(v@, lines@[k as int]) == l[k as int]);
        assert(lo <= lines@[k as int].0 <= lines@[k as int].1 <= hi);
        match yaml_line(v, a, b) {
            Some(e) => {
                r.push(e);
                assert(entry_pairs(r@) =~= before + seq![e.pair()]);
            },
            None => {},
        }
        k += 1;
    }
    assert(l.subrange(k as int, l.len() as int) =~= Seq::<Seq<char>>::empty());
    assert(entry_pairs(r@) =~= entry_pairs(r@) + Seq::<(Seq<char>, Seq<char>)>::empty());
    r
}

/// The source without leading byte-order marks.
pub open spec fn fm_source(s: Seq<char>) -> Seq<char> {
    strip_start(s, CharSet::One('\u{feff}'))
}

/// A line that closes the front matter: `---` or `...`.
pub open spec fn is_fm_delimiter(l: Seq<char>) -> bool {
    l == seq!['-', '-', '-'] || l == seq!['.', '.', '.']
}

/// Where the text after the opening `---` line starts, if `t` opens front
/// matter: `t` starts with `---` and has a newline after it.
pub open spec fn fm_open_end(t: Seq<char>) -> Option<int> {
    if seq!['-', '-', '-'].is_prefix_of(t) {
        match find_from(t, 3, '\n') {
            Some(nl) => Some(nl + 1),
            None => None,
        }
    } else {
        None
    }
}

/// The line of `s` that starts at index `i`: the text up to the next
/// newline, losing one `'\r'` before that newline (`str::lines`).
pub open spec fn line_at(s: Seq<char>, i: int) -> Seq<char> {
    match find_from(s, i, '\n') {
        Some(j) => strip_cr(s.subrange(i, j)),
        None => s.subrange(i, s.len() as int),
    }
}

/// Where the first closing line at or after the line start `i` starts.
pub open spec fn close_line(s: Seq<char>, i: int) -> Option<int>
    decreases s.len() - i,
{
    if i < 0 || i > s.len() {
        None
    } else if is_fm_delimiter(line_at(s, i)) {
        Some(i)
    } else {
        proof {
            lemma_find_from(s, i, '\n');
        }
        match find_from(s, i, '\n') {
            Some(j) => close_line(s, j + 1),
            None => None,
        }
    }
}

pub proof fn lemma_close_line(s: Seq<char>, i: int)
    ensures
        close_line(s, i) matches Some(m) ==> i <= m <= s.len(),
    decreases s.len() - i,
{
    if 0 <= i <= s.len() && !is_fm_delimiter(line_at(s, i)) {
        lemma_find_from(s, i, '\n');
        if let Some(j) = find_from(s, i, '\n') {
            lemma_close_line(s, j + 1);
        }
    }
}

/// The front-matter entries of `s` and the body that follows them: the
/// block between the opening `---` line and the first line that is `---` or
/// `...` gives the entries, and the body starts after that closing line.
/// Without front matter the body is `s` without its leading byte-order marks.
pub open spec fn split_frontmatter(s: Seq<char>) -> (Seq<(Seq<char>, Seq<char>)>, Seq<char>) {
    let t = fm_source(s);
    match fm_open_end(t) {
        Some(ao) => {
            let after = t.subrange(ao, t.len() as int);
            match close_line(after, 0) {
                Some(m) => (
                    simple_yaml(after.subrange(0, m)),
                    match find_from(after, m, '\n') {
                        Some(j) => after.subrange(j + 1, after.len() as int),
                        None => Seq::empty(),
                    },
                ),
                None => (Seq::empty(), t),
            }
        },
        None => (Seq::empty(), t),
    }
}

fn is_delimiter_range(v: &Vec<char>, a: usize, b: usize) -> (r: bool)
    requires
        a <= b <= v.len(),
    ensures
        r == is_fm_delimiter(v@.subrange(a as int, b as int)),
{
    let ghost l = v@.subrange(a as int, b as int);
    if b - a != 3 {
        assert(l.len() != 3);
        return false;
    }
    let d = v[a] == '-' && v[a + 1] == '-' && v[a + 2] == '-';
    let p = v[a] == '.' && v[a + 1] == '.' && v[a + 2] == '.';
    assert(l[0] == v@[a as int] && l[1] == v@[a + 1] && l[2] == v@[a + 2]);
    if d {
        assert(l =~= seq!['-', '-', '-']);
    } else if p {
        assert(l =~= seq!['.', '.', '.']);
    } else {
        assert(l != seq!['-', '-', '-'] ==> true);
        assert(l[0] != '-' || l[1] != '-' || l[2] != '-');
        assert(seq!['-', '-', '-'][0] == '-' && seq!['-', '-', '-'][1] == '-' && seq!['-', '-', '-'][2] == '-');
        assert(seq!['.', '.', '.'][0] == '.' && seq!['.', '.', '.'][1] == '.' && seq!['.', '.', '.'][2] == '.');
    }
    d || p
}

/// How the front matter of `v` divides it.
enum FmCut {
    /// No front matter: the body is `v[start..]`.
    Whole(usize),
    /// Front matter in `v[y0..y1]`, body in `v[b0..]`.
    Split(usize, usize, usize),
}

/// Where the text after the opening `---` line starts, for `t = v[st..]`.
fn open_end(v: &Vec<char>, st: usize) -> (r: Option<usize>)
    requires
        st <= v.len(),
    ensures
        match r {
            Some(ao) => st < ao <= v.len() && fm_open_end(v@.subrange(st as int, v.len() as int))
                == Some(ao - st),
            None => fm_open_end(v@.subrange(st as int, v.len() as int)) is None,
        },
{
    let n = v.len();
    let ghost t = v@.subrange(st as int, n as int);
    let dashes = vec!['-', '-', '-'];
    assert(dashes@ =~= seq!['-', '-', '-']);
    if !has_prefix(v, st, n, &dashes) {
        return None;
    }
    proof {
        lemma_find_from(v@, st + 3, '\n');
    }
    match find_byte(v, st + 3, '\n') {
        Some(nl) => {
            proof {
                assert forall|k: int| 3 <= k < nl - st implies t[k] != '\n' by {
                    assert(t[k] == v@[st + k]);
                }
                lemma_find_from_first(t, 3, '\n', nl - st);
            }
            Some(nl + 1)
        },
        None => {
            proof {
                assert forall|k: int| 3 <= k < t.len() implies t[k] != '\n' by {
                    assert(t[k] == v@[st + k]);
                }
                lemma_find_from_none(t, 3, '\n');
            }
            None
        },
    }
}

/// Where the first closing line of `v[lo..hi]` at or after the line start
/// `from` starts, and where the text after it starts.
fn find_close_line(v: &Vec<char>, lo: usize, hi: usize, from: usize) -> (r: Option<(usize, usize)>)
    requires
        lo <= from <= hi <= v.len(),
    ensures
        match r {
            Some((m, b0)) => from <= m <= b0 <= hi && close_line(
                v@.subrange(lo as int, hi as int),
                from - lo,
            ) == Some(m - lo) && v@.subrange(b0 as int, hi as int) == match find_from(
                v@.subrange(lo as int, hi as int),
                m - lo,
                '\n',
            ) {
                Some(j) => v@.subrange(lo as int, hi as int).subrange(j + 1, hi - lo),
                None => Seq::<char>::empty(),
            },
            None => close_line(v@.subrange(lo as int, hi as int), from - lo) is None,
        },
{
    let ghost s = v@.subrange(lo as int, hi as int);
    let mut i = from;
    while i <= hi
        invariant
            lo <= from <= i <= hi <= v.len(),
            s == v@.subrange(lo as int, hi as int),
            close_line(s, from - lo) == close_line(s, i - lo),
        decreases hi + 1 - i,
    {
        let nl = find_char(v, lo, hi, i, '\n');
        proof {
            lemma_find_from(s, i - lo, '\n');
        }
        let e = match nl {
            Some(j) => if j > i && v[j - 1] == '\r' {
                j - 1
            } else {
                j
            },
            None => hi,
        };
        proof {
            match nl {
                Some(j) => {
                    assert(s.subrange(i - lo, j - lo) =~= v@.subrange(i as int, j as int));
                    if j > i {
                        assert(v@.subrange(i as int, j as int).last() == v@[j - 1]);
                        assert(v@.subrange(i as int, j - 1) =~= v@.subrange(i as int, j as int).drop_last());
                    }
                },
                None => {
                    assert(s.subrange(i - lo, s.len() as int) =~= v@.subrange(i as int, hi as int));
                },
            }
            assert(line_at(s, i - lo) == v@.subrange(i as int, e as int));
        }
        if is_delimiter_range(v, i, e) {
            let b0 = match nl {
                Some(j) => j + 1,
                None => hi,
            };
            proof {
                match nl {
                    Some(j) => {
                        assert(s.subrange(j + 1 - lo, hi - lo) =~= v@.subrange(j + 1, hi as int));
                    },
                    None => {
                        assert(v@.subrange(hi as int, hi as int) =~= Seq::<char>::empty());
                    },
                }
            }
            return Some((i, b0));
        }
        match nl {
            Some(j) => {
                i = j + 1;
            },
            None => {
                return None;
            },
        }
    }
    None
}

fn frontmatter_cut(v: &Vec<char>) -> (r: FmCut)
    ensures
        match r {
            FmCut::Whole(st) => st <= v.len() && split_frontmatter(v@) == (
                Seq::<(Seq<char>, Seq<char>)>::empty(),
                v@.subrange(st as int, v.len() as int),
            ),
            FmCut::Split(y0, y1, b0) => y0 <= y1 <= b0 <= v.len() && split_frontmatter(v@) == (
                simple_yaml(v@.subrange(y0 as int, y1 as int)),
                v@.subrange(b0 as int, v.len() as int),
            ),
        },
{
    let n = v.len();
    let st = skip_start(v, 0, n, CharSet::One('\u{feff}'));
    assert(v@.subrange(0, n as int) =~= v@);
    let ghost t = fm_source(v@);
    assert(t == v@.subrange(st as int, n as int));
    let ao = match open_end(v, st) {
        Some(ao) => ao,
        None => {
            return FmCut::Whole(st);
        },
    };
    let ghost after = t.subrange(ao - st, t.len() as int);
    assert(after =~= v@.subrange(ao as int, n as int));
    match find_close_line(v, ao, n, ao) {
        Some((m, b0)) => {
            assert(after.subrange(0, m - ao) =~= v@.subrange(ao as int, m as int));
            FmCut::Split(ao, m, b0)
        },
        None => FmCut::Whole(st),
    }
}

/// Returns `(entries, body_without_frontmatter)`.
/// Frontmatter is the YAML block between the opening `---` and closing `---`
/// or `...` on lines by themselves at the very start of the file.
pub fn extract_frontmatter(src: &str) -> (r: (Vec<FrontmatterEntry>, String))
    ensures
        (entry_pairs(r.0@), r.1@) == split_frontmatter(src@),
{
    let v = chars_of(src);
    let n = v.len();
    match frontmatter_cut(&v) {
        FmCut::Whole(st) => {
            let e: Vec<FrontmatterEntry> = Vec::new();
            assert(entry_pairs(e@) =~= Seq::<(Seq<char>, Seq<char>)>::empty());
            (e, string_of(&v, st, n))
        },
        FmCut::Split(y0, y1, b0) => (parse_simple_yaml(&v, y0, y1), string_of(&v, b0, n)),
    }
}

// ── Section splitting ─────────────────────────────────────────────────────────

pub open spec fn min_usize(a: usize, b: usize) -> usize {
    if a < b {
        a
    } else {
        b
    }
}

pub open spec fn toc_offsets(toc: Seq<TocEntry>) -> Seq<usize> {
    toc.map_values(|e: TocEntry| e.byte_offset)
}

/// `ranges[0]` is the preamble before the first heading, `ranges[i+1]` runs
/// from heading `i` to the next heading or the end; every bound is clamped to
/// `total`. Without headings there is one range, the whole text.
pub open spec fn section_ranges_of(total: usize, offs: Seq<usize>) -> Seq<(usize, usize)> {
    if offs.len() == 0 {
        seq![(0usize, total)]
    } else {
        Seq::new(
            (offs.len() + 1) as nat,
            |i: int|
                if i == 0 {
                    (0usize, min_usize(offs[0], total))
                } else {
                    (
                        min_usize(offs[i - 1], total),
                        if i < offs.len() {
                            min_usize(offs[i], total)
                        } else {
                            total
                        },
                    )
                },
        )
    }
}

/// Build byte-range pairs for each render section of `content`.
///
/// `ranges[0]`   = preamble before the first heading (may be `0..0`).
/// `ranges[i+1]` = heading `i` line + body up to the next heading.
///
/// All ranges are clamped to `content.len()`.
pub fn build_section_ranges(content: &str, toc: &[TocEntry]) -> (ranges: Vec<(usize, usize)>)
    ensures
        ranges@ == section_ranges_of(byte_len(content@) as usize, toc_offsets(toc@)),
{
    let total = str_byte_len(content);
    let ghost offs = toc_offsets(toc@);
    if toc.len() == 0 {
        return vec![(0, total)];
    }
    let mut ranges: Vec<(usize, usize)> = Vec::new();
    // Preamble: everything before the first heading
    let o0 = toc[0].byte_offset;
    let first = if o0 < total {
        o0
    } else {
        total
    };
    ranges.push((0, first));
    // One range per heading
    let mut i: usize = 0;
    while i < toc.len()
        invariant
            0 < toc@.len(),
            offs == toc_offsets(toc@),
            i <= toc@.len(),
            ranges@.len() == i + 1,
            forall|j: int|
                0 <= j < ranges@.len() ==> #[trigger] ranges@[j] == section_ranges_of(total, offs)[j],
        decreases toc.len() - i,
    {
        let oi = toc[i].byte_offset;
        let start = if oi < total {
            oi
        } else {
            total
        };
        let end = if i + 1 < toc.len() {
            let on = toc[i + 1].byte_offset;
            if on < total {
                on
            } else {
                total
            }
        } else {
            total
        };
        ranges.push((start, end));
        i += 1;
    }
    assert(ranges@ =~= section_ranges_of(total, offs));
    ranges
}

// ── Document ──────────────────────────────────────────────────────────────────

pub struct Document {
    /// Raw source content (unmodified).
    pub content: String,
    /// Content with relative image paths rewritten to `file://` absolute URIs,
    /// and frontmatter stripped — this is what the viewer renders.
    pub display_content: String,
    /// Byte ranges into `display_content` for each render section.
    /// `section_ranges[0]` = pre-heading preamble (may be empty).
    /// `section_ranges[i+1]` = TOC entry `i`'s heading + body.
    pub section_ranges: Vec<(usize, usize)>,
    pub toc: Vec<TocEntry>,
    /// YAML front-matter entries, or empty if none.
    pub frontmatter: Vec<FrontmatterEntry>,
}

/// The text a document shows for `raw`, its images resolved against `base`.
pub open spec fn display_of(raw: Seq<char>, base: Seq<char>) -> Seq<char> {
    resolved(split_frontmatter(raw).1, base)
}

impl Document {
    /// What a document built from `raw` with images under `base` holds.
    pub open spec fn built_from(&self, raw: Seq<char>, base: Seq<char>) -> bool {
        let display = display_of(raw, base);
        &&& self.content@ == raw
        &&& entry_pairs(self.frontmatter@) == split_frontmatter(raw).0
        &&& self.display_content@ == display
        &&& byte_len(display) <= usize::MAX
        &&& toc_items(self.toc@) == toc_of(display)
        &&& self.section_ranges@ == section_ranges_of(
            byte_len(display) as usize,
            toc_offsets(self.toc@),
        )
    }

    /// The document for the text `raw` of a file in the directory `base_dir`:
    /// front matter split off, image paths resolved, outline and sections
    /// computed.
    pub fn from_source(raw: String, base_dir: &str) -> (d: Document)
        ensures
            d.built_from(raw@, base_dir@),
    {
        let (frontmatter, body) = extract_frontmatter(raw.as_str());
        let display_content = resolve_image_paths(body.as_str(), base_dir);
        let _ = str_byte_len(display_content.as_str());
        let toc = extract_toc(display_content.as_str());
        let section_ranges = build_section_ranges(display_content.as_str(), toc.as_slice());
        Document { content: raw, display_content, section_ranges, toc, frontmatter }
    }
}

/// What a rewritten target is like: no `![` in it, a walk through it
/// (without its closing `)`) that returns to depth 0, and a path that starts
/// with `file://`, so that it is not rewritten again.
proof fn lemma_target_facts(base: Seq<char>, path: Seq<char>, title: Seq<char>, d1: nat)
    requires
        plain_base(base),
        path.len() > 0,
        forall|k: int| 0 <= k < path.len() ==> path[k] != ' ' && path[k] != '\t',
        no_image_open(path),
        no_image_open(title),
        paren_walk(path, 0) == Some(d1),
        paren_walk(title, d1) == Some(0nat),
    ensures
        ({
            let t = rewritten_target(base, path, title);
            let e = t.drop_last();
            &&& t.len() > 0
            &&& t.last() == ')'
            &&& t[0] == 'f'
            &&& no_image_open(t)
            &&& paren_walk(e, 0) == Some(0nat)
            &&& !is_relative_path(path_and_title(e).0)
        }),
{
    let a = file_prefix();
    assert(('f' as u32) == 102 && ('/' as u32) == 47 && ('(' as u32) == 40 && (')' as u32) == 41);
    assert forall|k: int| 0 <= k < a.len() implies a[k] != '(' && a[k] != ')' && a[k] != '\n' && a[k]
        != '[' && a[k] != ' ' && a[k] != '\t' && a[k] != '!' by {
        if k == 0 {
        } else if k == 1 {
        } else if k == 2 {
        } else if k == 3 {
        } else if k == 4 {
        } else if k == 5 {
        } else {
            assert(k == 6);
        }
    }
    let sep: Seq<char> = if base.len() == 0 || base.last() == '/' {
        Seq::empty()
    } else {
        seq!['/']
    };
    let c = a + base + sep;
    assert forall|k: int| 0 <= k < c.len() implies c[k] != '(' && c[k] != ')' && c[k] != '\n'
        && c[k] != '[' && c[k] != ' ' && c[k] != '\t' by {
        if k < a.len() {
            assert(c[k] == a[k]);
        } else if k < a.len() + base.len() {
            assert(c[k] == base[k - a.len()]);
        } else {
            assert(c[k] == sep[k - a.len() - base.len()]);
        }
    }
    assert(c.last() == '/') by {
        if sep.len() > 0 {
        } else if base.len() > 0 {
            assert(c.last() == base.last());
        } else {
            assert(c.last() == a[6]);
        }
    }
    lemma_no_open_plain(c);
    let d = c + path;
    lemma_no_open_concat(c, path);
    let tt: Seq<char> = if title.len() > 0 {
        seq![' '] + title
    } else {
        Seq::empty()
    };
    lemma_no_open_plain(seq![' ']);
    lemma_no_open_concat(seq![' '], title);
    let e = d + tt;
    lemma_no_open_concat(d, tt);
    let t = e + seq![')'];
    lemma_no_open_plain(seq![')']);
    lemma_no_open_concat(e, seq![')']);
    assert(rewritten_target(base, path, title) =~= t);
    assert(t.drop_last() =~= e);
    // the walk
    lemma_walk_plain(c, 0);
    lemma_walk_concat(c, path, 0);
    lemma_walk_concat(d, tt, 0);
    if title.len() > 0 {
        lemma_walk_plain(seq![' '], d1);
        lemma_walk_concat(seq![' '], title, d1);
    } else {
        assert(paren_walk(tt, d1) == Some(d1));
    }
    // the path of the new target
    assert forall|k: int| 0 <= k < d.len() implies d[k] != ' ' && d[k] != '\t' by {
        if k < c.len() {
            assert(d[k] == c[k]);
        } else {
            assert(d[k] == path[k - c.len()]);
        }
    }
    if title.len() > 0 {
        assert(e[d.len() as int] == ' ');
        assert forall|k: int| 0 <= k < d.len() implies e[k] != ' ' && e[k] != '\t' by {
            assert(e[k] == d[k]);
        }
        lemma_find_blank_first(e, 0, d.len() as int);
        assert(e.subrange(0, d.len() as int) =~= d);
    } else {
        assert(e =~= d);
        lemma_find_blank_none(e, 0);
    }
    let pth = path_and_title(e).0;
    assert(pth == trim(d));
    assert(d[0] == 'f');
    assert(!is_ws(d[0]));
    assert(strip_start(d, CharSet::Whitespace) == d);
    lemma_strip_end_shape(d, CharSet::Whitespace);
    let n = strip_end(d, CharSet::Whitespace).len();
    assert(d[6] == '/');
    assert(!is_ws(d[6]));
    assert(n > 6) by {
        if n <= 6 {
            assert(in_set(CharSet::Whitespace, d[6]));
        }
    }
    assert(pth.subrange(0, 7) =~= a);
    assert(file_prefix().is_prefix_of(pth));
    assert(t[0] == a[0]);
}

/// What the target of the only image of `s` holds: a path without blanks
/// and a title, neither with `![`, whose walk returns to depth 0.
proof fn lemma_old_target(s: Seq<char>, i0: int, ps: int, pc: int)
    requires
        one_image_start(s),
        image_opens_at(s, i0),
        i0 < ps <= pc < s.len(),
        closing_paren(s, ps, 0) == Some(pc),
    ensures
        ({
            let (path, title) = path_and_title(s.subrange(ps, pc));
            &&& forall|k: int| 0 <= k < path.len() ==> path[k] != ' ' && path[k] != '\t'
            &&& no_image_open(path)
            &&& no_image_open(title)
            &&& paren_walk(path, 0) is Some
            &&& paren_walk(title, paren_walk(path, 0).unwrap()) == Some(0nat)
        }),
{
    let r = s.subrange(ps, pc);
    let (path, title) = path_and_title(r);
    lemma_find_blank(r, 0);
    let sp: int = match find_blank(r, 0) {
        Some(j) => j,
        None => r.len() as int,
    };
    let r1 = r.subrange(0, sp);
    let r2 = r.subrange(sp, r.len() as int);
    assert(r =~= r1 + r2);
    if find_blank(r, 0) is None {
        assert(r1 =~= r);
        assert(r2 =~= Seq::<char>::empty());
        assert(trim(r2) =~= Seq::<char>::empty());
    }
    assert(path == trim(r1) && title == trim(r2));
    let a1 = lemma_trim_shape(r1);
    let a2 = lemma_trim_shape(r2);
    let u1 = r1.subrange(0, a1);
    let w1 = r1.subrange(a1 + path.len(), r1.len() as int);
    let u2 = r2.subrange(0, a2);
    let w2 = r2.subrange(a2 + title.len(), r2.len() as int);
    assert(r1 =~= u1 + (path + w1));
    assert(r2 =~= u2 + (title + w2));
    lemma_closing_found(s, ps, 0);
    assert(paren_walk(r, 0) == Some(0nat));
    lemma_walk_concat(r1, r2, 0);
    let e1 = paren_walk(r1, 0).unwrap();
    lemma_walk_concat(u1, path + w1, 0);
    assert forall|k: int| 0 <= k < u1.len() implies is_ws(#[trigger] u1[k]) by {
        assert(u1[k] == r1[k]);
    }
    lemma_walk_blank(u1, 0);
    lemma_walk_concat(path, w1, 0);
    let d1 = paren_walk(path, 0).unwrap();
    assert forall|k: int| 0 <= k < w1.len() implies is_ws(#[trigger] w1[k]) by {
        assert(w1[k] == r1[a1 + path.len() + k]);
    }
    lemma_walk_blank(w1, d1);
    lemma_walk_concat(u2, title + w2, e1);
    assert forall|k: int| 0 <= k < u2.len() implies is_ws(#[trigger] u2[k]) by {
        assert(u2[k] == r2[k]);
    }
    lemma_walk_blank(u2, e1);
    lemma_walk_concat(title, w2, e1);
    let f1 = paren_walk(title, e1).unwrap();
    assert forall|k: int| 0 <= k < w2.len() implies is_ws(#[trigger] w2[k]) by {
        assert(w2[k] == r2[a2 + title.len() + k]);
    }
    lemma_walk_blank(w2, f1);
    assert(path =~= s.subrange(ps + a1, ps + a1 + path.len()));
    assert(title =~= s.subrange(ps + sp + a2, ps + sp + a2 + title.len()));
    lemma_no_open_after(s, i0, ps + a1, ps + a1 + path.len());
    lemma_no_open_after(s, i0, ps + sp + a2, ps + sp + a2 + title.len());
    assert forall|k: int| 0 <= k < path.len() implies path[k] != ' ' && path[k] != '\t' by {
        assert(path[k] == r[a1 + k]);
    }
}

/// Resolving image paths a second time changes nothing, when the text holds
/// `![` at most once and the folder path has no parentheses, `[`, blanks or
/// newlines: a rewritten target starts with `file://` and is left alone.
#[verifier::spinoff_prover]
#[verifier::rlimit(100)]
pub proof fn lemma_resolve_idempotent(s: Seq<char>, base: Seq<char>)
    requires
        one_image_start(s),
        plain_base(base),
    ensures
        resolved(resolved(s, base), base) == resolved(s, base),
{
    if forall|m: int| 0 <= m < s.len() ==> !rewrites_at(s, m) {
        lemma_resolve_copy(s, base, 0, s.len() as int);
        assert(s.subrange(0, s.len() as int) =~= s);
        assert(resolve_from(s, base, s.len() as int) =~= Seq::<char>::empty());
        assert(resolved(s, base) =~= s);
        return;
    }
    let i0 = choose|m: int| 0 <= m < s.len() && rewrites_at(s, m);
    lemma_image_at(s, i0);
    let (ps, pc) = image_at(s, i0).unwrap();
    assert(image_opens_at(s, i0));
    let r = s.subrange(ps, pc);
    let (path, title) = path_and_title(r);
    let t = rewritten_target(base, path, title);
    let x = s.subrange(0, ps);
    let z = s.subrange(pc + 1, s.len() as int);
    let out = x + t + z;
    let bc = find_from(s, i0 + 2, ']').unwrap();
    assert(closing_paren(s, ps, 0) == Some(pc));
    assert(resolved(s, base) =~= out) by {
        assert forall|m: int| 0 <= m < s.len() && m != i0 implies !rewrites_at(s, m) by {
            if image_at(s, m) is Some {
                assert(image_opens_at(s, m));
            }
        }
        lemma_resolve_copy(s, base, 0, i0);
        lemma_resolve_copy(s, base, pc + 1, s.len() as int);
        assert(resolve_from(s, base, s.len() as int) =~= Seq::<char>::empty());
        assert(resolve_from(s, base, i0) == s.subrange(i0, ps) + t + resolve_from(s, base, pc + 1));
    }
    lemma_old_target(s, i0, ps, pc);
    assert(is_relative_path(path));
    lemma_target_facts(base, path, title, paren_walk(path, 0).unwrap());
    let e = t.drop_last();
    assert(!rewrites_at(out, i0)) by {
        assert(out.subrange(ps, ps + e.len()) =~= e);
        assert(out[ps + e.len()] == ')');
        lemma_closing_walk(out, ps, e, 0);
        assert(closing_paren(out, ps, 0) == Some(ps + e.len()));
        lemma_find_from(s, i0 + 2, ']');
        lemma_find_from_agree(s, out, i0 + 2, ']', bc);
        assert(out[i0] == '!' && out[i0 + 1] == '[' && out[bc + 1] == '(');
        assert(image_at(out, i0) == Some((ps, ps + e.len())));
    }
    assert forall|m: int| 0 <= m < out.len() && m != i0 implies !rewrites_at(out, m) by {
        if image_at(out, m) is Some {
            assert(image_opens_at(out, m));
            lemma_no_open_after(s, i0, pc + 1, s.len() as int);
            lemma_open_concat(x + t, z, m);
            if m + 1 < (x + t).len() && image_opens_at(x + t, m) {
                lemma_open_concat(x, t, m);
                if m + 1 < x.len() && image_opens_at(x, m) {
                    assert(image_opens_at(s, m));
                }
                assert(x[ps - 1] == '(');
            }
            assert((x + t).last() == ')');
        }
    }
    lemma_resolve_copy(out, base, 0, out.len() as int);
    assert(out.subrange(0, out.len() as int) =~= out);
    assert(resolve_from(out, base, out.len() as int) =~= Seq::<char>::empty());
}

proof fn lemma_find_from_shift(x: Seq<char>, y: Seq<char>, j: int, c: char)
    requires
        0 <= j,
    ensures
        find_from(x + y, x.len() + j, c) == match find_from(y, j, c) {
            Some(k) => Some(k + x.len()),
            None => None::<int>,
        },
    decreases y.len() - j,
{
    if j < y.len() {
        assert((x + y)[x.len() + j] == y[j]);
        if y[j] != c {
            lemma_find_from_shift(x, y, j + 1, c);
        }
    }
}

proof fn lemma_closing_shift(x: Seq<char>, y: Seq<char>, j: int, d: nat)
    requires
        0 <= j,
    ensures
        closing_paren(x + y, x.len() + j, d) == match closing_paren(y, j, d) {
            Some(k) => Some(k + x.len()),
            None => None::<int>,
        },
    decreases y.len() - j,
{
    if j < y.len() {
        assert((x + y)[x.len() + j] == y[j]);
        if y[j] == '(' {
            lemma_closing_shift(x, y, j + 1, d + 1);
        } else if y[j] == ')' {
            if d > 0 {
                lemma_closing_shift(x, y, j + 1, (d - 1) as nat);
            }
        } else if y[j] != '\n' {
            lemma_closing_shift(x, y, j + 1, d);
        }
    }
}

/// Text after `x` is resolved as if `x` were not there.
proof fn lemma_resolve_shift(x: Seq<char>, y: Seq<char>, base: Seq<char>, j: int)
    requires
        0 <= j,
    ensures
        resolve_from(x + y, base, x.len() + j) == resolve_from(y, base, j),
    decreases y.len() - j,
{
    let z = x + y;
    let i = x.len() + j;
    if j < y.len() {
        assert(z[i] == y[j]);
        if j + 1 < y.len() {
            assert(z[i + 1] == y[j + 1]);
        }
        lemma_find_from_shift(x, y, j + 2, ']');
        if let Some(bc) = find_from(y, j + 2, ']') {
            lemma_find_from(y, j + 2, ']');
            if bc + 1 < y.len() {
                assert(z[bc + 1 + x.len()] == y[bc + 1]);
            }
            lemma_closing_shift(x, y, bc + 2, 0);
        }
        lemma_image_at(y, j);
        match image_at(y, j) {
            Some((ps, pc)) => {
                assert(image_at(z, i) == Some((ps + x.len(), pc + x.len())));
                assert(z.subrange(ps + x.len(), pc + x.len()) =~= y.subrange(ps, pc));
                assert(z.subrange(i, ps + x.len()) =~= y.subrange(j, ps));
                lemma_resolve_shift(x, y, base, pc + 1);
                lemma_resolve_shift(x, y, base, j + 1);
            },
            None => {
                assert(image_at(z, i) is None);
                lemma_resolve_shift(x, y, base, j + 1);
            },
        }
    }
}

proof fn lemma_closing_agree(s: Seq<char>, t: Seq<char>, i: int, d: nat, pc: int)
    requires
        0 <= i <= pc < s.len(),
        pc < t.len(),
        closing_paren(s, i, d) == Some(pc),
        forall|k: int| i <= k <= pc ==> s[k] == t[k],
    ensures
        closing_paren(t, i, d) == Some(pc),
    decreases pc - i,
{
    assert(t[i] == s[i]);
    if i == pc {
        if s[i] == '(' {
            lemma_closing_paren(s, i + 1, d + 1);
        } else if s[i] == ')' && d > 0 {
            lemma_closing_paren(s, i + 1, (d - 1) as nat);
        } else if s[i] != ')' && s[i] != '\n' {
            lemma_closing_paren(s, i + 1, d);
        }
    } else {
        if s[i] == '(' {
            lemma_closing_agree(s, t, i + 1, d + 1, pc);
        } else if s[i] == ')' {
            if d > 0 {
                lemma_closing_agree(s, t, i + 1, (d - 1) as nat, pc);
            }
        } else if s[i] != '\n' {
            lemma_closing_agree(s, t, i + 1, d, pc);
        }
    }
}

/// Image links are resolved one by one, each where it stands: text that
/// starts with one complete image link `x` (and holds no other `![`) is
/// resolved as `x` and then the rest, resolved on its own. So an image link
/// after another one is rewritten just as if it came first.
pub proof fn lemma_resolve_image_then_rest(x: Seq<char>, y: Seq<char>, base: Seq<char>)
    requires
        image_at(x, 0) matches Some((ps, pc)) && pc == x.len() - 1,
        forall|k: int| #[trigger] image_opens_at(x, k) ==> k == 0,
    ensures
        resolved(x + y, base) == resolved(x, base) + resolved(y, base),
{
    let z = x + y;
    let (ps, pc) = image_at(x, 0).unwrap();
    lemma_image_at(x, 0);
    let bc = find_from(x, 2, ']').unwrap();
    lemma_find_from(x, 2, ']');
    assert forall|k: int| 0 <= k < x.len() implies z[k] == x[k] by {}
    lemma_find_from_agree(x, z, 2, ']', bc);
    lemma_closing_agree(x, z, ps, 0, pc);
    assert(z[0] == x[0] && z[1] == x[1] && z[bc + 1] == x[bc + 1]);
    assert(image_at(z, 0) == Some((ps, pc)));
    assert(z.subrange(ps, pc) =~= x.subrange(ps, pc));
    assert(z.subrange(0, ps) =~= x.subrange(0, ps));
    lemma_resolve_shift(x, y, base, 0);
    assert(resolve_from(x, base, x.len() as int) =~= Seq::<char>::empty());
    let (path, title) = path_and_title(x.subrange(ps, pc));
    if !is_relative_path(path) {
        assert forall|m: int| 1 <= m < x.len() implies !rewrites_at(z, m) by {
            if image_at(z, m) is Some {
                assert(image_opens_at(z, m));
                if m + 1 < x.len() {
                    assert(image_opens_at(x, m));
                } else {
                    assert(z[m] == x[pc]);
                }
            }
        }
        assert forall|m: int| 1 <= m < x.len() implies !rewrites_at(x, m) by {
            if image_at(x, m) is Some {
                assert(image_opens_at(x, m));
            }
        }
        lemma_resolve_copy(z, base, 1, x.len() as int);
        lemma_resolve_copy(x, base, 1, x.len() as int);
        assert(z.subrange(1, x.len() as int) =~= x.subrange(1, x.len() as int));
        assert(resolved(x, base) =~= x);
        assert(resolved(z, base) =~= x + resolved(y, base));
    } else {
        assert(resolved(z, base) =~= x.subrange(0, ps) + rewritten_target(base, path, title)
            + resolved(y, base));
        assert(resolved(x, base) =~= x.subrange(0, ps) + rewritten_target(base, path, title));
    }
}

/// Text in which no image link starts is copied as it is, and what follows
/// it is resolved on its own.
pub proof fn lemma_resolve_plain_then_rest(x: Seq<char>, y: Seq<char>, base: Seq<char>)
    requires
        forall|k: int| 0 <= k < x.len() ==> !#[trigger] image_opens_at(x + y, k),
    ensures
        resolved(x + y, base) == x + resolved(y, base),
{
    let z = x + y;
    assert forall|m: int| 0 <= m < x.len() implies !rewrites_at(z, m) by {
        if image_at(z, m) is Some {
            assert(image_opens_at(z, m));
        }
    }
    lemma_resolve_copy(z, base, 0, x.len() as int);
    lemma_resolve_shift(x, y, base, 0);
    assert(z.subrange(0, x.len() as int) =~= x);
}

/// The sections of a document tile its displayed text: one more section
/// than headings, the first starting at 0, each ending where the next starts,
/// the last ending at the end of the text, none running backwards, the
/// section of heading `i` starting on the `#` that opens that heading's line,
/// and every bound on a character boundary, so that each section is a valid
/// slice of the text.
#[verifier::spinoff_prover]
#[verifier::rlimit(50)]
pub proof fn lemma_sections_tile(d: Document, raw: Seq<char>, base: Seq<char>)
    requires
        d.built_from(raw, base),
    ensures
        ({
            let r = d.section_ranges@;
            let total = byte_len(display_of(raw, base));
            &&& r.len() == d.toc@.len() + 1
            &&& r[0].0 == 0
            &&& r[r.len() - 1].1 == total
            &&& forall|k: int| 0 <= k < r.len() ==> #[trigger] r[k].0 <= r[k].1 <= total
            &&& forall|k: int| 0 <= k < r.len() - 1 ==> #[trigger] r[k].1 == r[k + 1].0
            &&& forall|i: int| 0 <= i < d.toc@.len() ==> #[trigger] r[i + 1].0 == d.toc@[i].byte_offset
            &&& forall|i: int| 0 <= i < d.toc@.len() ==> hash_at(display_of(raw, base), #[trigger] r[i + 1].0 as int)
            &&& forall|k: int|
                0 <= k < r.len() ==> char_boundary(display_of(raw, base), #[trigger] r[k].0 as int)
                    && char_boundary(display_of(raw, base), r[k].1 as int)
        }),
{
    let display = display_of(raw, base);
    let total = byte_len(display) as usize;
    lemma_toc_offsets(display);
    let toc = toc_of(display);
    let offs = toc_offsets(d.toc@);
    assert(toc_items(d.toc@) == toc);
    assert forall|i: int| 0 <= i < offs.len() implies #[trigger] offs[i] == toc[i].offset && offs[i]
        <= total by {
        assert(toc_items(d.toc@)[i] == d.toc@[i].item());
    }
    assert forall|i: int, j: int| 0 <= i < j < offs.len() implies #[trigger] offs[i] < #[trigger] offs[j] by {
        assert(offs[i] == toc[i].offset);
        assert(offs[j] == toc[j].offset);
    }
    let r = d.section_ranges@;
    if offs.len() > 0 {
        assert forall|k: int| 0 <= k < r.len() implies #[trigger] r[k].0 <= r[k].1 <= total by {
            if k > 0 && k < offs.len() {
                assert(offs[k - 1] < offs[k]);
            }
        }
    }
    assert(display.subrange(0, 0) =~= Seq::<char>::empty());
    assert(byte_len(display.subrange(0, 0)) == 0);
    assert(display.subrange(0, display.len() as int) =~= display);
    assert(char_boundary(display, 0));
    assert(char_boundary(display, total as int));
    assert forall|i: int| 0 <= i < offs.len() implies char_boundary(display, #[trigger] offs[i] as int)
        && hash_at(display, offs[i] as int) by {
        assert(offs[i] == toc[i].offset);
    }
    assert forall|i: int| 0 <= i < d.toc@.len() implies hash_at(display, #[trigger] r[i + 1].0 as int) by {
        assert(r[i + 1].0 == offs[i]);
        assert(hash_at(display, offs[i] as int));
    }
    assert forall|k: int| 0 <= k < r.len() implies char_boundary(display, #[trigger] r[k].0 as int)
        && char_boundary(display, r[k].1 as int) by {
        if offs.len() > 0 {
            if k > 0 {
                assert(char_boundary(display, offs[k - 1] as int));
            } else {
                assert(char_boundary(display, offs[0] as int));
            }
            if k < offs.len() {
                assert(char_boundary(display, offs[k] as int));
            }
        }
    }
}

/// Text in which no image link has a relative path comes back unchanged;
/// in particular text without `![`.
pub proof fn lemma_resolve_identity(s: Seq<char>, base: Seq<char>)
    requires
        forall|i: int|
            0 <= i < s.len() ==> match #[trigger] image_at(s, i) {
                Some((ps, pc)) => !is_relative_path(path_and_title(s.subrange(ps, pc)).0),
                None => true,
            },
    ensures
        resolved(s, base) == s,
{
    lemma_resolve_from_identity(s, base, 0);
    assert(s.subrange(0, s.len() as int) =~= s);
}

proof fn lemma_resolve_from_identity(s: Seq<char>, base: Seq<char>, i: int)
    requires
        0 <= i <= s.len(),
        forall|j: int|
            0 <= j < s.len() ==> match #[trigger] image_at(s, j) {
                Some((ps, pc)) => !is_relative_path(path_and_title(s.subrange(ps, pc)).0),
                None => true,
            },
    ensures
        resolve_from(s, base, i) == s.subrange(i, s.len() as int),
    decreases s.len() - i,
{
    if i < s.len() {
        lemma_resolve_from_identity(s, base, i + 1);
        assert(image_at(s, i) matches Some((ps, pc)) ==> !is_relative_path(
            path_and_title(s.subrange(ps, pc)).0,
        ));
        assert(resolve_from(s, base, i) == seq![s[i]] + resolve_from(s, base, i + 1));
        assert(seq![s[i]] + s.subrange(i + 1, s.len() as int) =~= s.subrange(i, s.len() as int));
    } else {
        assert(s.subrange(i, s.len() as int) =~= Seq::<char>::empty());
    }
}

/// The body left after the front matter is a tail of the source (without
/// its byte-order marks); without an opening `---` line there are no entries
/// and the body is all of it.
pub proof fn lemma_frontmatter_body(s: Seq<char>)
    ensures
        split_frontmatter(s).1.is_suffix_of(fm_source(s)),
        !seq!['-', '-', '-'].is_prefix_of(fm_source(s)) ==> split_frontmatter(s) == (
            Seq::<(Seq<char>, Seq<char>)>::empty(),
            fm_source(s),
        ),
{
    let t = fm_source(s);
    let body = split_frontmatter(s).1;
    if let Some(ao) = fm_open_end(t) {
        lemma_find_from(t, 3, '\n');
        let after = t.subrange(ao, t.len() as int);
        lemma_close_line(after, 0);
        if let Some(m) = close_line(after, 0) {
            lemma_find_from(after, m, '\n');
            match find_from(after, m, '\n') {
                Some(j) => {
                    assert(body =~= t.subrange(ao + j + 1, t.len() as int));
                    assert(body =~= t.subrange(t.len() - body.len(), t.len() as int));
                },
                None => {
                    assert(body =~= t.subrange(t.len() as int, t.len() as int));
                },
            }
            return;
        }
    }
    assert(body == t);
    assert(t.subrange(0, t.len() as int) =~= t);
}

} // verus!
