//! Character classes, UTF-8 lengths and the small string toolkit the rest of
//! the library is written with. Strings are reasoned about as `Seq<char>`.

use vstd::prelude::*;

verus! {

/// Unicode `White_Space`, the class that `char::is_whitespace`, `str::trim`
/// and `str::split_whitespace` use.
pub open spec fn is_ws(c: char) -> bool {
    let u = c as u32;
    ||| 0x09 <= u <= 0x0d
    ||| u == 0x20
    ||| u == 0x85
    ||| u == 0xa0
    ||| u == 0x1680
    ||| 0x2000 <= u <= 0x200a
    ||| u == 0x2028
    ||| u == 0x2029
    ||| u == 0x202f
    ||| u == 0x205f
    ||| u == 0x3000
}

pub fn char_is_ws(c: char) -> (b: bool)
    ensures
        b == is_ws(c),
{
    let u = c as u32;
    (0x09 <= u && u <= 0x0d) || u == 0x20 || u == 0x85 || u == 0xa0 || u == 0x1680 || (0x2000
        <= u && u <= 0x200a) || u == 0x2028 || u == 0x2029 || u == 0x202f || u == 0x205f || u
        == 0x3000
}

/// The characters of `s`, in order.
pub fn chars_of(s: &str) -> (v: Vec<char>)
    ensures
        v@ == s@,
{
    let mut v: Vec<char> = Vec::new();
    for c in it: s.chars()
        invariant
            v@ == it.seq().take(it.index() as int),
    {
        v.push(c);
    }
    v
}

} // verus!

verus! {

// ── Character sets used by the `trim_*_matches` family ───────────────────────

/// A set of characters to strip from the ends of a string.
#[derive(Clone, Copy)]
pub enum CharSet {
    Whitespace,
    One(char),
    Two(char, char),
}

pub open spec fn in_set(cs: CharSet, c: char) -> bool {
    match cs {
        CharSet::Whitespace => is_ws(c),
        CharSet::One(a) => c == a,
        CharSet::Two(a, b) => c == a || c == b,
    }
}

pub fn set_contains(cs: CharSet, c: char) -> (b: bool)
    ensures
        b == in_set(cs, c),
{
    match cs {
        CharSet::Whitespace => char_is_ws(c),
        CharSet::One(a) => c == a,
        CharSet::Two(a, b) => c == a || c == b,
    }
}

/// `s.trim_start_matches(set)`.
pub open spec fn strip_start(s: Seq<char>, cs: CharSet) -> Seq<char>
    decreases s.len(),
{
    if s.len() > 0 && in_set(cs, s[0]) {
        strip_start(s.drop_first(), cs)
    } else {
        s
    }
}

/// `s.trim_end_matches(set)`.
pub open spec fn strip_end(s: Seq<char>, cs: CharSet) -> Seq<char>
    decreases s.len(),
{
    if s.len() > 0 && in_set(cs, s.last()) {
        strip_end(s.drop_last(), cs)
    } else {
        s
    }
}

/// `s.trim_matches(set)`.
pub open spec fn strip_both(s: Seq<char>, cs: CharSet) -> Seq<char> {
    strip_end(strip_start(s, cs), cs)
}

/// `s.trim()`.
pub open spec fn trim(s: Seq<char>) -> Seq<char> {
    strip_both(s, CharSet::Whitespace)
}

/// `s.trim_start()`.
pub open spec fn trim_start(s: Seq<char>) -> Seq<char> {
    strip_start(s, CharSet::Whitespace)
}

/// First index in `lo..hi` at which `v` leaves the set: the start of
/// `v[lo..hi].trim_start_matches(set)`.
pub fn skip_start(v: &Vec<char>, lo: usize, hi: usize, cs: CharSet) -> (r: usize)
    requires
        lo <= hi <= v.len(),
    ensures
        lo <= r <= hi,
        v@.subrange(r as int, hi as int) == strip_start(v@.subrange(lo as int, hi as int), cs),
{
    let mut i = lo;
    while i < hi && set_contains(cs, v[i])
        invariant
            lo <= i <= hi <= v.len(),
            strip_start(v@.subrange(i as int, hi as int), cs) == strip_start(
                v@.subrange(lo as int, hi as int),
                cs,
            ),
        decreases hi - i,
    {
        assert(v@.subrange(i as int, hi as int).drop_first() =~= v@.subrange(i + 1, hi as int));
        i += 1;
    }
    i
}

/// End of `v[lo..hi].trim_end_matches(set)`.
pub fn skip_end(v: &Vec<char>, lo: usize, hi: usize, cs: CharSet) -> (r: usize)
    requires
        lo <= hi <= v.len(),
    ensures
        lo <= r <= hi,
        v@.subrange(lo as int, r as int) == strip_end(v@.subrange(lo as int, hi as int), cs),
{
    let mut j = hi;
    while j > lo && set_contains(cs, v[j - 1])
        invariant
            lo <= j <= hi <= v.len(),
            strip_end(v@.subrange(lo as int, j as int), cs) == strip_end(
                v@.subrange(lo as int, hi as int),
                cs,
            ),
        decreases j - lo,
    {
        assert(v@.subrange(lo as int, j as int).drop_last() =~= v@.subrange(lo as int, j - 1));
        j -= 1;
    }
    j
}

/// `strip_start` removes a run of characters of the set from the front.
pub proof fn lemma_strip_start_shape(x: Seq<char>, cs: CharSet)
    ensures
        strip_start(x, cs).len() <= x.len(),
        strip_start(x, cs) == x.subrange(x.len() - strip_start(x, cs).len(), x.len() as int),
        forall|k: int| 0 <= k < x.len() - strip_start(x, cs).len() ==> in_set(cs, #[trigger] x[k]),
        strip_start(x, cs).len() > 0 ==> !in_set(cs, strip_start(x, cs)[0]),
    decreases x.len(),
{
    if x.len() > 0 && in_set(cs, x[0]) {
        let y = x.drop_first();
        lemma_strip_start_shape(y, cs);
        let r = strip_start(y, cs);
        assert(y.subrange(y.len() - r.len(), y.len() as int) =~= x.subrange(
            x.len() - r.len(),
            x.len() as int,
        ));
        assert forall|k: int| 0 <= k < x.len() - r.len() implies in_set(cs, #[trigger] x[k]) by {
            if k > 0 {
                assert(x[k] == y[k - 1]);
            }
        }
    } else {
        assert(x.subrange(0, x.len() as int) =~= x);
    }
}

/// `strip_end` removes a run of characters of the set from the back.
pub proof fn lemma_strip_end_shape(x: Seq<char>, cs: CharSet)
    ensures
        strip_end(x, cs).len() <= x.len(),
        strip_end(x, cs) == x.subrange(0, strip_end(x, cs).len() as int),
        forall|k: int| strip_end(x, cs).len() <= k < x.len() ==> in_set(cs, #[trigger] x[k]),
    decreases x.len(),
{
    if x.len() > 0 && in_set(cs, x.last()) {
        let y = x.drop_last();
        lemma_strip_end_shape(y, cs);
        let r = strip_end(y, cs);
        assert(y.subrange(0, r.len() as int) =~= x.subrange(0, r.len() as int));
        assert forall|k: int| r.len() <= k < x.len() implies in_set(cs, #[trigger] x[k]) by {
            if k < x.len() - 1 {
                assert(x[k] == y[k]);
            }
        }
    } else {
        assert(x.subrange(0, x.len() as int) =~= x);
    }
}

/// Bounds of `v[lo..hi].trim_matches(set)`.
pub fn strip_range(v: &Vec<char>, lo: usize, hi: usize, cs: CharSet) -> (r: (usize, usize))
    requires
        lo <= hi <= v.len(),
    ensures
        lo <= r.0 <= r.1 <= hi,
        v@.subrange(r.0 as int, r.1 as int) == strip_both(v@.subrange(lo as int, hi as int), cs),
{
    let a = skip_start(v, lo, hi, cs);
    let b = skip_end(v, a, hi, cs);
    (a, b)
}

/// Bounds of `v[lo..hi].trim()`.
pub fn trim_range(v: &Vec<char>, lo: usize, hi: usize) -> (r: (usize, usize))
    requires
        lo <= hi <= v.len(),
    ensures
        lo <= r.0 <= r.1 <= hi,
        v@.subrange(r.0 as int, r.1 as int) == trim(v@.subrange(lo as int, hi as int)),
{
    strip_range(v, lo, hi, CharSet::Whitespace)
}

// ── Building strings ─────────────────────────────────────────────────────────

/// `String::push`.
#[verifier::external_body]
pub(crate) fn push_char(s: &mut String, c: char)
    ensures
        final(s)@ == old(s)@.push(c),
{
    s.push(c);
}

/// Appends `v[lo..hi]` to `out`.
pub fn push_range(out: &mut String, v: &Vec<char>, lo: usize, hi: usize)
    requires
        lo <= hi <= v.len(),
    ensures
        final(out)@ == old(out)@ + v@.subrange(lo as int, hi as int),
{
    let mut i = lo;
    while i < hi
        invariant
            lo <= i <= hi <= v.len(),
            out@ == old(out)@ + v@.subrange(lo as int, i as int),
        decreases hi - i,
    {
        push_char(out, v[i]);
        assert(v@.subrange(lo as int, i + 1) =~= v@.subrange(lo as int, i as int).push(v@[i as int]));
        i += 1;
    }
}

/// A new `String` holding `v[lo..hi]`.
pub fn string_of(v: &Vec<char>, lo: usize, hi: usize) -> (s: String)
    requires
        lo <= hi <= v.len(),
    ensures
        s@ == v@.subrange(lo as int, hi as int),
{
    let mut s = String::new();
    push_range(&mut s, v, lo, hi);
    s
}

/// Whether `v[lo..hi]` begins with `p`.
pub fn has_prefix(v: &Vec<char>, lo: usize, hi: usize, p: &Vec<char>) -> (b: bool)
    requires
        lo <= hi <= v.len(),
    ensures
        b == p@.is_prefix_of(v@.subrange(lo as int, hi as int)),
{
    if p.len() > hi - lo {
        return false;
    }
    let mut k: usize = 0;
    while k < p.len()
        invariant
            k <= p.len() <= hi - lo,
            lo <= hi <= v.len(),
            forall|j: int| 0 <= j < k ==> p@[j] == v@[lo + j],
        decreases p.len() - k,
    {
        if p[k] != v[lo + k] {
            assert(v@.subrange(lo as int, hi as int)[k as int] != p@[k as int]);
            return false;
        }
        k += 1;
    }
    assert(p@ =~= v@.subrange(lo as int, hi as int).subrange(0, p@.len() as int));
    true
}

} // verus!

verus! {

// ── UTF-8 lengths ────────────────────────────────────────────────────────────

/// Number of bytes in the UTF-8 encoding of `c` (`char::len_utf8`).
pub open spec fn char_width(c: char) -> nat {
    let u = c as u32;
    if u < 0x80 {
        1
    } else if u < 0x800 {
        2
    } else if u < 0x10000 {
        3
    } else {
        4
    }
}

/// Number of bytes in the UTF-8 encoding of `s` (`str::len`).
pub open spec fn byte_len(s: Seq<char>) -> nat
    decreases s.len(),
{
    if s.len() == 0 {
        0
    } else {
        byte_len(s.drop_last()) + char_width(s.last())
    }
}

pub proof fn lemma_byte_len_add(a: Seq<char>, b: Seq<char>)
    ensures
        byte_len(a + b) == byte_len(a) + byte_len(b),
    decreases b.len(),
{
    if b.len() == 0 {
        assert(a + b =~= a);
    } else {
        lemma_byte_len_add(a, b.drop_last());
        assert((a + b).drop_last() =~= a + b.drop_last());
    }
}

pub proof fn lemma_byte_len_single(c: char)
    ensures
        byte_len(seq![c]) == char_width(c),
{
    assert(seq![c].drop_last() =~= Seq::<char>::empty());
    assert(seq![c].last() == c);
    assert(byte_len(Seq::<char>::empty()) == 0);
}

pub proof fn lemma_byte_len_bounds(s: Seq<char>)
    ensures
        s.len() <= byte_len(s) <= 4 * s.len(),
    decreases s.len(),
{
    if s.len() > 0 {
        lemma_byte_len_bounds(s.drop_last());
    }
}

/// A prefix is never longer in bytes than the whole.
pub proof fn lemma_byte_len_subrange(s: Seq<char>, i: int, j: int)
    requires
        0 <= i <= j <= s.len(),
    ensures
        byte_len(s.subrange(0, i)) + byte_len(s.subrange(i, j)) == byte_len(s.subrange(0, j)),
        byte_len(s.subrange(0, j)) <= byte_len(s),
{
    lemma_byte_len_add(s.subrange(0, i), s.subrange(i, j));
    assert(s.subrange(0, i) + s.subrange(i, j) =~= s.subrange(0, j));
    lemma_byte_len_add(s.subrange(0, j), s.subrange(j, s.len() as int));
    assert(s.subrange(0, j) + s.subrange(j, s.len() as int) =~= s);
}

pub proof fn lemma_byte_len_split3(v: Seq<char>, i: int, j: int, k: int)
    requires
        0 <= i <= j <= k <= v.len(),
    ensures
        byte_len(v.subrange(i, k)) == byte_len(v.subrange(i, j)) + byte_len(v.subrange(j, k)),
{
    lemma_byte_len_add(v.subrange(i, j), v.subrange(j, k));
    assert(v.subrange(i, j) + v.subrange(j, k) =~= v.subrange(i, k));
}

pub proof fn lemma_byte_len_within(v: Seq<char>, i: int, j: int)
    requires
        0 <= i <= j <= v.len(),
    ensures
        byte_len(v.subrange(i, j)) <= byte_len(v),
{
    lemma_byte_len_split3(v, 0, i, j);
    lemma_byte_len_split3(v, 0, j, v.len() as int);
    assert(v.subrange(0, v.len() as int) =~= v);
}

/// The byte offset just past a line that a newline at `b` ends.
pub proof fn lemma_offset_after_newline(v: Seq<char>, a: int, b: int)
    requires
        0 <= a <= b < v.len(),
        v[b] == '\n',
    ensures
        byte_len(v.subrange(0, b + 1)) == byte_len(v.subrange(0, a)) + byte_len(v.subrange(a, b))
            + 1,
{
    let w = v.subrange(0, b + 1);
    lemma_byte_len_subrange(w, a, b);
    lemma_byte_len_subrange(w, b, b + 1);
    assert(w.subrange(0, a) =~= v.subrange(0, a));
    assert(w.subrange(a, b) =~= v.subrange(a, b));
    assert(w.subrange(0, b) =~= v.subrange(0, b));
    assert(w.subrange(0, b + 1) =~= w);
    let nl = w.subrange(b, b + 1);
    assert(nl.drop_last() =~= Seq::<char>::empty());
    assert(nl.last() == '\n');
    assert(byte_len(nl) == 1);
}

/// `byte_len` is the length of the UTF-8 encoding that `str` holds.
pub proof fn lemma_byte_len_is_utf8_len(s: Seq<char>)
    ensures
        byte_len(s) == vstd::utf8::encode_utf8(s).len(),
    decreases s.len(),
{
    if s.len() > 0 {
        lemma_byte_len_is_utf8_len(s.drop_first());
        vstd::utf8::char_is_scalar(s[0]);
        lemma_byte_len_add(seq![s[0]], s.drop_first());
        assert(seq![s[0]] + s.drop_first() =~= s);
        assert(seq![s[0]].drop_last() =~= Seq::<char>::empty());
        assert(seq![s[0]].last() == s[0]);
        assert(byte_len(Seq::<char>::empty()) == 0);
        assert(byte_len(seq![s[0]]) == char_width(s[0]));
        let u = s[0] as u32;
        assert(vstd::utf8::encode_scalar(u).len() == char_width(s[0])) by {
            if u < 0x80 {
            } else if u < 0x800 {
            } else if u < 0x10000 {
                assert(vstd::utf8::has_width_3_encoding(u));
            } else {
            }
        }
    }
}

/// `str::len`.
pub fn str_byte_len(s: &str) -> (n: usize)
    ensures
        n == byte_len(s@),
{
    proof {
        lemma_byte_len_is_utf8_len(s@);
    }
    let b = s.as_bytes();
    b.len()
}

pub fn char_len_utf8(c: char) -> (n: usize)
    ensures
        n == char_width(c),
{
    let u = c as u32;
    if u < 0x80 {
        1
    } else if u < 0x800 {
        2
    } else if u < 0x10000 {
        3
    } else {
        4
    }
}

/// Byte length of `v[lo..hi]`.
pub fn range_byte_len(v: &Vec<char>, lo: usize, hi: usize) -> (n: usize)
    requires
        lo <= hi <= v.len(),
        byte_len(v@.subrange(lo as int, hi as int)) <= usize::MAX,
    ensures
        n == byte_len(v@.subrange(lo as int, hi as int)),
{
    let mut n: usize = 0;
    let mut i = lo;
    while i < hi
        invariant
            lo <= i <= hi <= v.len(),
            byte_len(v@.subrange(lo as int, hi as int)) <= usize::MAX,
            n == byte_len(v@.subrange(lo as int, i as int)),
        decreases hi - i,
    {
        proof {
            assert(v@.subrange(lo as int, i + 1).drop_last() =~= v@.subrange(lo as int, i as int));
            lemma_byte_len_subrange(v@.subrange(lo as int, hi as int), i - lo, i + 1 - lo);
            assert(v@.subrange(lo as int, hi as int).subrange(0, i + 1 - lo) =~= v@.subrange(
                lo as int,
                i + 1,
            ));
        }
        n = n + char_len_utf8(v[i]);
        i += 1;
    }
    n
}

// ── Splitting into lines ─────────────────────────────────────────────────────

/// `s.split('\n')`: the pieces between newlines; never empty.
pub open spec fn split_nl(s: Seq<char>) -> Seq<Seq<char>>
    decreases s.len(),
{
    if s.len() == 0 {
        seq![Seq::<char>::empty()]
    } else {
        let p = split_nl(s.drop_last());
        if s.last() == '\n' {
            p.push(Seq::<char>::empty())
        } else {
            p.update(p.len() - 1, p.last().push(s.last()))
        }
    }
}

pub proof fn lemma_split_nl_nonempty(s: Seq<char>)
    ensures
        split_nl(s).len() >= 1,
    decreases s.len(),
{
    if s.len() > 0 {
        lemma_split_nl_nonempty(s.drop_last());
    }
}

/// Text joined at a newline splits into the pieces of each side.
pub proof fn lemma_split_nl_concat(a: Seq<char>, b: Seq<char>)
    ensures
        split_nl(a + seq!['\n'] + b) == split_nl(a) + split_nl(b),
    decreases b.len(),
{
    let s = a + seq!['\n'] + b;
    if b.len() == 0 {
        assert(s.drop_last() =~= a);
        assert(split_nl(b) =~= seq![Seq::<char>::empty()]);
        assert(split_nl(s) =~= split_nl(a) + split_nl(b));
    } else {
        let b2 = b.drop_last();
        lemma_split_nl_concat(a, b2);
        lemma_split_nl_nonempty(b2);
        lemma_split_nl_nonempty(a);
        assert(s.drop_last() =~= a + seq!['\n'] + b2);
        assert(s.last() == b.last());
        let x = split_nl(a);
        let y = split_nl(b2);
        if b.last() == '\n' {
            assert(split_nl(s) =~= x + y.push(Seq::<char>::empty()));
        } else {
            assert((x + y).last() == y.last());
            assert(split_nl(s) =~= x + y.update(y.len() - 1, y.last().push(b.last())));
        }
    }
}

/// Text without a newline is one piece.
pub proof fn lemma_split_nl_single(s: Seq<char>)
    requires
        forall|i: int| 0 <= i < s.len() ==> s[i] != '\n',
    ensures
        split_nl(s) == seq![s],
    decreases s.len(),
{
    if s.len() == 0 {
        assert(s =~= Seq::<char>::empty());
        assert(split_nl(s) =~= seq![s]);
    } else {
        let t = s.drop_last();
        assert forall|i: int| 0 <= i < t.len() implies t[i] != '\n' by {
            assert(t[i] == s[i]);
        }
        lemma_split_nl_single(t);
        assert(s[s.len() - 1] != '\n');
        assert(t.push(s.last()) =~= s);
        assert(split_nl(s) =~= seq![s]);
    }
}

proof fn lemma_strip_start_push(y: Seq<char>, c: char, cs: CharSet)
    ensures
        strip_start(y.push(c), cs) == if strip_start(y, cs).len() == 0 {
            strip_start(seq![c], cs)
        } else {
            strip_start(y, cs).push(c)
        },
    decreases y.len(),
{
    if y.len() == 0 {
        assert(y.push(c) =~= seq![c]);
    } else {
        assert(y.push(c)[0] == y[0]);
        assert(y.push(c).drop_first() =~= y.drop_first().push(c));
        if in_set(cs, y[0]) {
            lemma_strip_start_push(y.drop_first(), c, cs);
        }
    }
}

/// Trimming a line ignores a `'\r'` at its end.
pub proof fn lemma_trim_strip_cr(x: Seq<char>)
    ensures
        trim(strip_cr(x)) == trim(x),
{
    if x.len() > 0 && x.last() == '\r' {
        let y = x.drop_last();
        assert(y.push('\r') =~= x);
        lemma_strip_start_push(y, '\r', CharSet::Whitespace);
        let z = strip_start(y, CharSet::Whitespace);
        if z.len() == 0 {
            let r = seq!['\r'];
            assert(('\r' as u32) == 13);
            assert(is_ws(r[0]));
            assert(r.drop_first() =~= Seq::<char>::empty());
            assert(strip_start(r, CharSet::Whitespace) == strip_start(r.drop_first(), CharSet::Whitespace));
            assert(strip_start(Seq::<char>::empty(), CharSet::Whitespace) =~= Seq::<char>::empty());
            assert(strip_start(r, CharSet::Whitespace) =~= Seq::<char>::empty());
        } else {
            assert(z.push('\r').drop_last() =~= z);
        }
    }
}

/// Removes one `'\r'` from the end of a line.
pub open spec fn strip_cr(l: Seq<char>) -> Seq<char> {
    if l.len() > 0 && l.last() == '\r' {
        l.drop_last()
    } else {
        l
    }
}

/// `s.lines()`: the pieces of `split('\n')`, where a piece that a newline
/// ends loses one `'\r'`, and an empty last piece is no line.
pub open spec fn str_lines(s: Seq<char>) -> Seq<Seq<char>> {
    let p = split_nl(s);
    let body = p.drop_last().map_values(|l: Seq<char>| strip_cr(l));
    if p.last().len() == 0 {
        body
    } else {
        body.push(p.last())
    }
}

/// The text a range of `v` covers.
pub open spec fn range_text(v: Seq<char>, r: (usize, usize)) -> Seq<char> {
    v.subrange(r.0 as int, r.1 as int)
}

/// The ranges are in order inside `lo..hi`, each followed by a separator.
pub open spec fn ordered_ranges(r: Seq<(usize, usize)>, lo: int, hi: int) -> bool {
    &&& forall|k: int| 0 <= k < r.len() ==> lo <= #[trigger] r[k].0 <= r[k].1 <= hi
    &&& forall|k: int| 0 <= k < r.len() - 1 ==> #[trigger] r[k].1 < r[k + 1].0
}

/// The pieces of `v[lo..hi].split('\n')`, as ranges of `v`.
pub fn split_nl_ranges(v: &Vec<char>, lo: usize, hi: usize) -> (r: Vec<(usize, usize)>)
    requires
        lo <= hi <= v.len(),
    ensures
        r@.len() == split_nl(v@.subrange(lo as int, hi as int)).len(),
        forall|k: int|
            0 <= k < r@.len() ==> range_text(v@, #[trigger] r@[k]) == split_nl(
                v@.subrange(lo as int, hi as int),
            )[k],
        r@.len() >= 1,
        r@[0].0 == lo,
        r@[r@.len() - 1].1 == hi,
        forall|k: int| 0 <= k < r@.len() ==> lo <= #[trigger] r@[k].0 <= r@[k].1 <= hi,
        forall|k: int|
            0 <= k < r@.len() - 1 ==> #[trigger] r@[k + 1].0 == r@[k].1 + 1 && v@[r@[k].1 as int]
                == '\n',
{
    let mut r: Vec<(usize, usize)> = Vec::new();
    let mut start = lo;
    let mut i = lo;
    while i < hi
        invariant
            lo <= start <= i <= hi <= v.len(),
            split_nl(v@.subrange(lo as int, i as int)).len() == r@.len() + 1,
            forall|k: int|
                0 <= k < r@.len() ==> range_text(v@, #[trigger] r@[k]) == split_nl(
                    v@.subrange(lo as int, i as int),
                )[k],
            split_nl(v@.subrange(lo as int, i as int))[r@.len() as int] == v@.subrange(
                start as int,
                i as int,
            ),
            r@.len() == 0 ==> start == lo,
            r@.len() > 0 ==> r@[0].0 == lo && start == r@[r@.len() - 1].1 + 1,
            forall|k: int| 0 <= k < r@.len() ==> lo <= #[trigger] r@[k].0 <= r@[k].1 < start,
            forall|k: int|
                0 <= k < r@.len() - 1 ==> #[trigger] r@[k + 1].0 == r@[k].1 + 1 && v@[r@[k].1 as int]
                    == '\n',
            r@.len() > 0 ==> v@[r@[r@.len() - 1].1 as int] == '\n',
        decreases hi - i,
    {
        let ghost prev = split_nl(v@.subrange(lo as int, i as int));
        assert(v@.subrange(lo as int, i + 1).drop_last() =~= v@.subrange(lo as int, i as int));
        if v[i] == '\n' {
            let ghost r0 = r@;
            r.push((start, i));
            proof {
                assert forall|k: int| 0 <= k < r@.len() - 1 implies #[trigger] r@[k + 1].0 == r@[k].1
                    + 1 && v@[r@[k].1 as int] == '\n' by {
                    if k < r0.len() - 1 {
                        assert(r@[k] == r0[k] && r@[k + 1] == r0[k + 1]);
                    } else {
                        assert(r@[k] == r0[k]);
                    }
                }
            }
            start = i + 1;
            assert(v@.subrange(start as int, i + 1) =~= Seq::<char>::empty());
        } else {
            assert(v@.subrange(start as int, i + 1) =~= v@.subrange(start as int, i as int).push(
                v@[i as int],
            ));
        }
        i += 1;
        assert(forall|k: int|
            0 <= k < r@.len() - 1 ==> #[trigger] r@[k + 1].0 == r@[k].1 + 1 && v@[r@[k].1 as int]
                == '\n');
    }
    r.push((start, hi));
    r
}

/// The lines of `v[lo..hi]` (`str::lines`), as ranges of `v`.
pub fn line_ranges(v: &Vec<char>, lo: usize, hi: usize) -> (r: Vec<(usize, usize)>)
    requires
        lo <= hi <= v.len(),
    ensures
        r@.len() == str_lines(v@.subrange(lo as int, hi as int)).len(),
        forall|k: int|
            0 <= k < r@.len() ==> range_text(v@, #[trigger] r@[k]) == str_lines(
                v@.subrange(lo as int, hi as int),
            )[k],
        ordered_ranges(r@, lo as int, hi as int),
{
    let pieces = split_nl_ranges(v, lo, hi);
    let ghost p = split_nl(v@.subrange(lo as int, hi as int));
    let mut r: Vec<(usize, usize)> = Vec::new();
    let n = pieces.len();
    let mut k: usize = 0;
    while k + 1 < n
        invariant
            pieces@.len() == n == p.len() >= 1,
            lo <= hi <= v.len(),
            k <= n - 1,
            r@.len() == k,
            forall|j: int| 0 <= j < pieces@.len() ==> range_text(v@, #[trigger] pieces@[j]) == p[j],
            forall|j: int| 0 <= j < n ==> lo <= #[trigger] pieces@[j].0 <= pieces@[j].1 <= hi,
            forall|j: int|
                0 <= j < n - 1 ==> #[trigger] pieces@[j + 1].0 == pieces@[j].1 + 1,
            forall|j: int| 0 <= j < k ==> range_text(v@, #[trigger] r@[j]) == strip_cr(p[j]),
            forall|j: int|
                0 <= j < k ==> #[trigger] r@[j].0 == pieces@[j].0 && r@[j].0 <= r@[j].1
                    <= pieces@[j].1,
        decreases n - k,
    {
        let (a, b) = pieces[k];
        assert(range_text(v@, pieces@[k as int]) == p[k as int]);
        if b > a && v[b - 1] == '\r' {
            assert(v@.subrange(a as int, b - 1) =~= v@.subrange(a as int, b as int).drop_last());
            r.push((a, b - 1));
        } else {
            r.push((a, b));
        }
        k += 1;
    }
    let (a, b) = pieces[n - 1];
    if b > a {
        r.push((a, b));
    }
    proof {
        let body = p.drop_last().map_values(|l: Seq<char>| strip_cr(l));
        assert(range_text(v@, pieces@[n - 1]) == p[n - 1]);
        assert forall|j: int| 0 <= j < r@.len() - 1 implies #[trigger] r@[j].1 < r@[j + 1].0 by {
            assert(pieces@[j + 1].0 == pieces@[j].1 + 1);
        }
        if b > a {
            assert(str_lines(v@.subrange(lo as int, hi as int)) =~= body.push(p.last()));
        } else {
            assert(str_lines(v@.subrange(lo as int, hi as int)) =~= body);
        }
    }
    r
}

} // verus!

verus! {

// ── Words ────────────────────────────────────────────────────────────────────

/// `s.split_whitespace()`: the maximal runs of non-whitespace characters.
pub open spec fn words(s: Seq<char>) -> Seq<Seq<char>>
    decreases s.len(),
{
    if s.len() == 0 {
        Seq::empty()
    } else {
        let w = words(s.drop_last());
        let c = s.last();
        if is_ws(c) {
            w
        } else if s.len() >= 2 && !is_ws(s[s.len() - 2]) {
            w.update(w.len() - 1, w.last().push(c))
        } else {
            w.push(seq![c])
        }
    }
}

/// `pieces.join(" ")`.
pub open spec fn join_sp(w: Seq<Seq<char>>) -> Seq<char>
    decreases w.len(),
{
    if w.len() == 0 {
        Seq::empty()
    } else if w.len() == 1 {
        w[0]
    } else {
        join_sp(w.drop_last()) + seq![' '] + w.last()
    }
}

/// A word is a non-empty run without whitespace.
pub open spec fn is_word(w: Seq<char>) -> bool {
    w.len() > 0 && forall|i: int| 0 <= i < w.len() ==> !is_ws(#[trigger] w[i])
}

pub proof fn lemma_words(s: Seq<char>)
    ensures
        forall|k: int| 0 <= k < words(s).len() ==> is_word(#[trigger] words(s)[k]),
        s.len() > 0 && !is_ws(s.last()) ==> words(s).len() >= 1,
    decreases s.len(),
{
    if s.len() > 0 {
        lemma_words(s.drop_last());
        let w = words(s.drop_last());
        let c = s.last();
        if !is_ws(c) && s.len() >= 2 && !is_ws(s[s.len() - 2]) {
            assert(s.drop_last().last() == s[s.len() - 2]);
            let nw = w.last().push(c);
            assert(is_word(w[w.len() - 1]));
            assert forall|i: int| 0 <= i < nw.len() implies !is_ws(#[trigger] nw[i]) by {
                if i < nw.len() - 1 {
                    assert(nw[i] == w[w.len() - 1][i]);
                }
            }
        }
    }
}

pub proof fn lemma_join_push(w: Seq<Seq<char>>, x: Seq<char>)
    ensures
        join_sp(w.push(x)) == if w.len() == 0 {
            x
        } else {
            join_sp(w) + seq![' '] + x
        },
{
    assert(w.push(x).drop_last() =~= w);
}

pub proof fn lemma_join_extend_last(w: Seq<Seq<char>>, c: char)
    requires
        w.len() >= 1,
    ensures
        join_sp(w.update(w.len() - 1, w.last().push(c))) == join_sp(w).push(c),
{
    let u = w.update(w.len() - 1, w.last().push(c));
    if w.len() == 1 {
    } else {
        assert(u.drop_last() =~= w.drop_last());
        assert(join_sp(u) =~= join_sp(w).push(c));
    }
}

/// `v[lo..hi].split_whitespace().collect::<Vec<_>>().join(" ")`, appended to `out`.
pub fn push_collapsed(out: &mut String, v: &Vec<char>, lo: usize, hi: usize)
    requires
        lo <= hi <= v.len(),
    ensures
        final(out)@ == old(out)@ + join_sp(words(v@.subrange(lo as int, hi as int))),
{
    let ghost base = old(out)@;
    let mut any = false;
    let mut i = lo;
    while i < hi
        invariant
            lo <= i <= hi <= v.len(),
            out@ == base + join_sp(words(v@.subrange(lo as int, i as int))),
            any == (words(v@.subrange(lo as int, i as int)).len() > 0),
        decreases hi - i,
    {
        let ghost t = v@.subrange(lo as int, i as int);
        let ghost t2 = v@.subrange(lo as int, i + 1);
        proof {
            assert(t2.drop_last() =~= t);
            assert(t2.last() == v@[i as int]);
            lemma_words(t);
        }
        let c = v[i];
        if !char_is_ws(c) {
            if i > lo && !char_is_ws(v[i - 1]) {
                proof {
                    assert(t2[t2.len() - 2] == v@[i - 1]);
                    assert(t.last() == v@[i - 1]);
                    lemma_join_extend_last(words(t), c);
                }
                push_char(out, c);
            } else {
                proof {
                    if i > lo {
                        assert(t2[t2.len() - 2] == v@[i - 1]);
                    }
                    lemma_join_push(words(t), seq![c]);
                }
                if any {
                    push_char(out, ' ');
                }
                push_char(out, c);
                any = true;
            }
        }
        assert(out@ == base + join_sp(words(t2)));
        i += 1;
    }
}

/// The words of `v[lo..hi]` (`split_whitespace`), as ranges of `v`.
pub fn word_ranges(v: &Vec<char>, lo: usize, hi: usize) -> (r: Vec<(usize, usize)>)
    requires
        lo <= hi <= v.len(),
    ensures
        r@.len() == words(v@.subrange(lo as int, hi as int)).len(),
        forall|k: int|
            0 <= k < r@.len() ==> range_text(v@, #[trigger] r@[k]) == words(
                v@.subrange(lo as int, hi as int),
            )[k],
        forall|k: int| 0 <= k < r@.len() ==> lo <= #[trigger] r@[k].0 <= r@[k].1 <= hi,
{
    let mut r: Vec<(usize, usize)> = Vec::new();
    let mut start = lo;
    let mut in_word = false;
    let mut i = lo;
    while i < hi
        invariant
            lo <= start <= i <= hi <= v.len(),
            words(v@.subrange(lo as int, i as int)).len() == r@.len() + (if in_word {
                1int
            } else {
                0int
            }),
            forall|k: int|
                0 <= k < r@.len() ==> range_text(v@, #[trigger] r@[k]) == words(
                    v@.subrange(lo as int, i as int),
                )[k],
            forall|k: int| 0 <= k < r@.len() ==> lo <= #[trigger] r@[k].0 <= r@[k].1 <= i,
            in_word ==> words(v@.subrange(lo as int, i as int))[r@.len() as int] == v@.subrange(
                start as int,
                i as int,
            ),
            in_word == (i > lo && !is_ws(v@[i - 1])),
        decreases hi - i,
    {
        let ghost t = v@.subrange(lo as int, i as int);
        let ghost t2 = v@.subrange(lo as int, i + 1);
        proof {
            assert(t2.drop_last() =~= t);
            assert(t2.last() == v@[i as int]);
            if i > lo {
                assert(t2[t2.len() - 2] == v@[i - 1]);
                assert(t.last() == v@[i - 1]);
            }
            lemma_words(t);
        }
        let c = v[i];
        if char_is_ws(c) {
            if in_word {
                r.push((start, i));
                in_word = false;
            }
        } else {
            if in_word {
                assert(v@.subrange(start as int, i + 1) =~= v@.subrange(start as int, i as int).push(
                    c,
                ));
            } else {
                start = i;
                in_word = true;
                assert(v@.subrange(start as int, i + 1) =~= seq![c]);
            }
        }
        i += 1;
    }
    if in_word {
        r.push((start, hi));
    }
    r
}

/// A word after a blank (or at the start) is a word of its own.
pub proof fn lemma_words_append_word(s: Seq<char>, x: Seq<char>)
    requires
        s.len() == 0 || is_ws(s.last()),
        is_word(x),
    ensures
        words(s + x) == words(s).push(x),
    decreases x.len(),
{
    let c = x.last();
    assert((s + x).drop_last() =~= s + x.drop_last());
    assert((s + x).last() == c);
    if x.len() == 1 {
        assert(x.drop_last() =~= Seq::<char>::empty());
        assert(s + x.drop_last() =~= s);
        if s.len() > 0 {
            assert((s + x)[(s + x).len() - 2] == s.last());
        }
        assert(x =~= seq![c]);
    } else {
        let y = x.drop_last();
        assert forall|i: int| 0 <= i < y.len() implies !is_ws(#[trigger] y[i]) by {
            assert(y[i] == x[i]);
        }
        lemma_words_append_word(s, y);
        assert((s + x)[(s + x).len() - 2] == x[x.len() - 2]);
        assert(y.push(c) =~= x);
        assert(words(s).push(y).update(words(s).push(y).len() - 1, y.push(c)) =~= words(s).push(
            x,
        ));
    }
}

/// Words joined by single spaces split back into the same words.
pub proof fn lemma_join_words_idempotent(ws: Seq<Seq<char>>)
    requires
        forall|k: int| 0 <= k < ws.len() ==> is_word(#[trigger] ws[k]),
    ensures
        words(join_sp(ws)) == ws,
    decreases ws.len(),
{
    if ws.len() == 0 {
        assert(words(Seq::<char>::empty()) =~= Seq::<Seq<char>>::empty());
    } else if ws.len() == 1 {
        assert(is_word(ws[0]));
        lemma_words_append_word(Seq::empty(), ws[0]);
        assert(Seq::<char>::empty() + ws[0] =~= ws[0]);
        assert(words(Seq::<char>::empty()) =~= Seq::<Seq<char>>::empty());
        assert(Seq::<Seq<char>>::empty().push(ws[0]) =~= ws);
    } else {
        let init = ws.drop_last();
        assert forall|k: int| 0 <= k < init.len() implies is_word(#[trigger] init[k]) by {
            assert(init[k] == ws[k]);
        }
        lemma_join_words_idempotent(init);
        let a = join_sp(init);
        let sp = a + seq![' '];
        assert(sp.drop_last() =~= a);
        assert(sp.last() == ' ');
        assert(is_word(ws.last()));
        lemma_words_append_word(sp, ws.last());
        assert(init.push(ws.last()) =~= ws);
    }
}

/// Whether the characters of `v` are exactly `lit`.
pub fn chars_equal(v: &Vec<char>, lit: &Vec<char>) -> (b: bool)
    ensures
        b == (v@ == lit@),
{
    if v.len() != lit.len() {
        return false;
    }
    let mut i: usize = 0;
    while i < v.len()
        invariant
            v@.len() == lit@.len(),
            i <= v@.len(),
            forall|j: int| 0 <= j < i ==> v@[j] == lit@[j],
        decreases v.len() - i,
    {
        if v[i] != lit[i] {
            return false;
        }
        i += 1;
    }
    assert(v@ =~= lit@);
    true
}

/// Bytes the pieces of a `split('\n')` cover, counting one separator after
/// each piece.
pub open spec fn pieces_bytes(p: Seq<Seq<char>>) -> int
    decreases p.len(),
{
    if p.len() == 0 {
        0
    } else {
        pieces_bytes(p.drop_last()) + byte_len(p.last()) + 1
    }
}

pub proof fn lemma_pieces_bytes_nonneg(p: Seq<Seq<char>>)
    ensures
        pieces_bytes(p) >= p.len(),
    decreases p.len(),
{
    if p.len() > 0 {
        lemma_pieces_bytes_nonneg(p.drop_last());
    }
}

pub proof fn lemma_pieces_bytes_first(p: Seq<Seq<char>>)
    requires
        p.len() > 0,
    ensures
        pieces_bytes(p) == byte_len(p[0]) + 1 + pieces_bytes(p.drop_first()),
    decreases p.len(),
{
    if p.len() == 1 {
        assert(p.drop_last() =~= Seq::<Seq<char>>::empty());
        assert(p.drop_first() =~= Seq::<Seq<char>>::empty());
    } else {
        lemma_pieces_bytes_first(p.drop_last());
        assert(p.drop_last().drop_first() =~= p.drop_first().drop_last());
        assert(p.drop_first().last() == p.last());
        assert(p.drop_last()[0] == p[0]);
    }
}

/// The pieces of `split('\n')` and the newlines between them make up the text.
pub proof fn lemma_split_nl_bytes(s: Seq<char>)
    ensures
        pieces_bytes(split_nl(s)) == byte_len(s) + 1,
    decreases s.len(),
{
    if s.len() == 0 {
        let p = split_nl(s);
        assert(p =~= seq![Seq::<char>::empty()]);
        assert(p.drop_last() =~= Seq::<Seq<char>>::empty());
        assert(p.last() =~= Seq::<char>::empty());
        assert(byte_len(Seq::<char>::empty()) == 0);
        assert(pieces_bytes(Seq::<Seq<char>>::empty()) == 0);
    } else {
        let p = split_nl(s.drop_last());
        lemma_split_nl_bytes(s.drop_last());
        lemma_split_nl_nonempty(s.drop_last());
        let c = s.last();
        if c == '\n' {
            let u = p.push(Seq::<char>::empty());
            assert(u.drop_last() =~= p);
            assert(u.last() =~= Seq::<char>::empty());
            assert(byte_len(Seq::<char>::empty()) == 0);
            assert(split_nl(s) == u);
            assert(pieces_bytes(u) == pieces_bytes(p) + 1);
        } else {
            let u = p.update(p.len() - 1, p.last().push(c));
            assert(split_nl(s) == u);
            assert(u.drop_last() =~= p.drop_last());
            assert(u.last() == p.last().push(c));
            assert(p.last().push(c).drop_last() =~= p.last());
            assert(byte_len(p.last().push(c)) == byte_len(p.last()) + char_width(c));
            assert(pieces_bytes(p) == pieces_bytes(p.drop_last()) + byte_len(p.last()) + 1);
            assert(pieces_bytes(u) == pieces_bytes(u.drop_last()) + byte_len(u.last()) + 1);
        }
    }
}

/// `b` is the byte offset of a character boundary of `s`: the length in
/// bytes of one of its prefixes.
pub open spec fn char_boundary(s: Seq<char>, b: int) -> bool {
    exists|m: int| 0 <= m <= s.len() && #[trigger] byte_len(s.subrange(0, m)) == b
}

/// `piece` occurs in `s` at a character index whose prefix is `b` bytes long.
pub open spec fn piece_at(s: Seq<char>, piece: Seq<char>, b: int) -> bool {
    exists|m: int|
        0 <= m && m + piece.len() <= s.len() && #[trigger] byte_len(s.subrange(0, m)) == b
            && s.subrange(m, m + piece.len()) == piece
}

/// `piece` ends `s`, and the text before it is `b` bytes long.
pub open spec fn last_piece_at(s: Seq<char>, piece: Seq<char>, b: int) -> bool {
    &&& piece.len() <= s.len()
    &&& byte_len(s.subrange(0, s.len() - piece.len())) == b
    &&& s.subrange(s.len() - piece.len(), s.len() as int) == piece
}

proof fn lemma_last_piece_at(s: Seq<char>, piece: Seq<char>, b: int)
    requires
        last_piece_at(s, piece, b),
    ensures
        piece_at(s, piece, b),
{
    let m = s.len() - piece.len();
    assert(byte_len(s.subrange(0, m)) == b);
}

/// Piece `k` of `split('\n')` sits in the text where the bytes of the pieces
/// before it, each with its separator, end; the last piece ends the text.
pub proof fn lemma_split_nl_pieces(s: Seq<char>)
    ensures
        forall|k: int|
            0 <= k < split_nl(s).len() ==> piece_at(
                s,
                split_nl(s)[k],
                #[trigger] pieces_bytes(split_nl(s).take(k)),
            ),
        split_nl(s).len() >= 1,
        last_piece_at(
            s,
            split_nl(s).last(),
            pieces_bytes(split_nl(s).take(split_nl(s).len() - 1)),
        ),
    decreases s.len(),
{
    let p = split_nl(s);
    lemma_split_nl_nonempty(s);
    if s.len() == 0 {
        assert(p.take(0) =~= Seq::<Seq<char>>::empty());
        assert(p.last() =~= Seq::<char>::empty());
        assert(s.subrange(0, 0) =~= Seq::<char>::empty());
        assert(byte_len(s.subrange(0, 0)) == 0);
        lemma_last_piece_at(s, p.last(), 0);
    } else {
        let t = s.drop_last();
        let q = split_nl(t);
        let c = s.last();
        lemma_split_nl_pieces(t);
        lemma_split_nl_nonempty(t);
        assert forall|k: int| 0 <= k < q.len() - 1 implies piece_at(
            s,
            p[k],
            #[trigger] pieces_bytes(p.take(k)),
        ) by {
            assert(p.take(k) =~= q.take(k));
            assert(p[k] == q[k]);
            assert(piece_at(t, q[k], pieces_bytes(q.take(k))));
            let m = choose|m: int|
                0 <= m && m + q[k].len() <= t.len() && #[trigger] byte_len(t.subrange(0, m))
                    == pieces_bytes(q.take(k)) && t.subrange(m, m + q[k].len()) == q[k];
            assert(s.subrange(0, m) =~= t.subrange(0, m));
            assert(s.subrange(m, m + q[k].len()) =~= t.subrange(m, m + q[k].len()));
        }
        let kl = q.len() - 1;
        let ql = q.last();
        let mq = t.len() - ql.len();
        assert(s.subrange(0, mq) =~= t.subrange(0, mq));
        if c == '\n' {
            assert(p.take(kl) =~= q.take(kl));
            assert(p[kl] == ql);
            assert(s.subrange(mq, mq + ql.len()) =~= t.subrange(mq, t.len() as int));
            assert(byte_len(s.subrange(0, mq)) == pieces_bytes(p.take(kl)));
            assert(piece_at(s, p[kl], pieces_bytes(p.take(kl))));
            assert(p.take(q.len() as int) =~= q);
            lemma_split_nl_bytes(t);
            assert(s.subrange(0, s.len() as int) =~= s);
            assert(byte_len(s) == byte_len(t) + 1);
            assert(p.last() =~= Seq::<char>::empty());
            assert(s.subrange(s.len() as int, s.len() as int) =~= Seq::<char>::empty());
            lemma_last_piece_at(s, p.last(), pieces_bytes(p.take(p.len() - 1)));
        } else {
            assert(p.take(kl) =~= q.take(kl));
            assert(p[kl] == ql.push(c));
            assert(s.subrange(mq, s.len() as int) =~= t.subrange(mq, t.len() as int).push(c));
            assert(last_piece_at(s, p.last(), pieces_bytes(p.take(p.len() - 1))));
            lemma_last_piece_at(s, p.last(), pieces_bytes(p.take(p.len() - 1)));
        }
        assert forall|k: int| 0 <= k < p.len() implies piece_at(
            s,
            p[k],
            #[trigger] pieces_bytes(p.take(k)),
        ) by {
            if k < q.len() - 1 {
            } else if k == q.len() - 1 && c == '\n' {
            } else {
                assert(k == p.len() - 1);
            }
        }
    }
}

/// Joining a first piece in front of others.
pub proof fn lemma_join_cons(a: Seq<char>, xs: Seq<Seq<char>>)
    ensures
        join_sp(seq![a] + xs) == if xs.len() == 0 {
            a
        } else {
            a + seq![' '] + join_sp(xs)
        },
    decreases xs.len(),
{
    if xs.len() == 0 {
        assert(seq![a] + xs =~= seq![a]);
    } else if xs.len() == 1 {
        assert((seq![a] + xs).drop_last() =~= seq![a]);
        assert((seq![a] + xs).last() == xs[0]);
        assert(join_sp(seq![a]) == a);
    } else {
        lemma_join_cons(a, xs.drop_last());
        assert((seq![a] + xs).drop_last() =~= seq![a] + xs.drop_last());
        assert((seq![a] + xs).last() == xs.last());
        assert(join_sp(xs) == join_sp(xs.drop_last()) + seq![' '] + xs.last());
        assert(a + seq![' '] + join_sp(xs.drop_last()) + seq![' '] + xs.last() =~= a + seq![' ']
            + (join_sp(xs.drop_last()) + seq![' '] + xs.last()));
    }
}

} // verus!
