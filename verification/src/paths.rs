//! File paths compared as `std::path::Path` compares them on Unix: by their
//! components, so that `/a/./b.md`, `/a//b.md/` and `/a/b.md` name the same
//! file.

use vstd::prelude::*;

use crate::text::{chars_equal, chars_of, range_text};

verus! {

/// The maximal runs of characters other than `/`.
pub open spec fn segments(s: Seq<char>) -> Seq<Seq<char>>
    decreases s.len(),
{
    if s.len() == 0 {
        Seq::empty()
    } else {
        let w = segments(s.drop_last());
        let c = s.last();
        if c == '/' {
            w
        } else if s.len() >= 2 && s[s.len() - 2] != '/' {
            w.update(w.len() - 1, w.last().push(c))
        } else {
            w.push(seq![c])
        }
    }
}

pub proof fn lemma_segments_nonempty(s: Seq<char>)
    ensures
        s.len() > 0 && s.last() != '/' ==> segments(s).len() >= 1,
        s.len() > 0 && s[0] != '/' ==> segments(s).len() >= 1,
    decreases s.len(),
{
    if s.len() > 0 {
        lemma_segments_nonempty(s.drop_last());
        if s.len() >= 2 {
            assert(s.drop_last()[0] == s[0]);
            assert(s.drop_last().last() == s[s.len() - 2]);
        }
    }
}

/// `segs` without the `.` segments.
pub open spec fn without_dots(segs: Seq<Seq<char>>) -> Seq<Seq<char>>
    decreases segs.len(),
{
    if segs.len() == 0 {
        Seq::empty()
    } else if segs.last() == seq!['.'] {
        without_dots(segs.drop_last())
    } else {
        without_dots(segs.drop_last()).push(segs.last())
    }
}

/// The components of a Unix path, as `Path::components` gives them: `/` for
/// the root, `.` for a current directory at the start, then the normal
/// components; `.` elsewhere, doubled and trailing `/` are left out, `..` is
/// kept.
pub open spec fn components(p: Seq<char>) -> Seq<Seq<char>> {
    let lead: Seq<Seq<char>> = if p.len() > 0 && p[0] == '/' {
        seq![seq!['/']]
    } else if p.len() > 0 && segments(p)[0] == seq!['.'] {
        seq![seq!['.']]
    } else {
        Seq::empty()
    };
    lead + without_dots(segments(p))
}

/// Two paths name the same file as `PathBuf`'s `==` sees it: their
/// components are equal.
pub open spec fn paths_equal(a: Seq<char>, b: Seq<char>) -> bool {
    components(a) == components(b)
}

pub open spec fn char_vec_views(v: Seq<Vec<char>>) -> Seq<Seq<char>> {
    v.map_values(|x: Vec<char>| x@)
}

/// The segments of `v[lo..hi]`, as ranges of `v`.
fn segment_ranges(v: &Vec<char>, lo: usize, hi: usize) -> (r: Vec<(usize, usize)>)
    requires
        lo <= hi <= v.len(),
    ensures
        r@.len() == segments(v@.subrange(lo as int, hi as int)).len(),
        forall|k: int|
            0 <= k < r@.len() ==> range_text(v@, #[trigger] r@[k]) == segments(
                v@.subrange(lo as int, hi as int),
            )[k],
        forall|k: int| 0 <= k < r@.len() ==> lo <= #[trigger] r@[k].0 <= r@[k].1 <= hi,
{
    let mut r: Vec<(usize, usize)> = Vec::new();
    let mut start = lo;
    let mut in_seg = false;
    let mut i = lo;
    while i < hi
        invariant
            lo <= start <= i <= hi <= v.len(),
            segments(v@.subrange(lo as int, i as int)).len() == r@.len() + (if in_seg {
                1int
            } else {
                0int
            }),
            forall|k: int|
                0 <= k < r@.len() ==> range_text(v@, #[trigger] r@[k]) == segments(
                    v@.subrange(lo as int, i as int),
                )[k],
            forall|k: int| 0 <= k < r@.len() ==> lo <= #[trigger] r@[k].0 <= r@[k].1 <= i,
            in_seg ==> segments(v@.subrange(lo as int, i as int))[r@.len() as int] == v@.subrange(
                start as int,
                i as int,
            ),
            in_seg == (i > lo && v@[i - 1] != '/'),
        decreases hi - i,
    {
        let ghost t = v@.subrange(lo as int, i as int);
        let ghost t2 = v@.subrange(lo as int, i + 1);
        proof {
            assert(t2.drop_last() =~= t);
            assert(t2.last() == v@[i as int]);
            if i > lo {
                assert(t2[t2.len() - 2] == v@[i - 1]);
                assert(t.last() == v@[i - 1]);
            }
            lemma_segments_nonempty(t);
        }
        let c = v[i];
        if c == '/' {
            if in_seg {
                r.push((start, i));
                in_seg = false;
            }
        } else {
            if in_seg {
                assert(v@.subrange(start as int, i + 1) =~= v@.subrange(start as int, i as int).push(
                    c,
                ));
            } else {
                start = i;
                in_seg = true;
                assert(v@.subrange(start as int, i + 1) =~= seq![c]);
            }
        }
        i += 1;
    }
    if in_seg {
        r.push((start, hi));
    }
    r
}

/// `v[lo..hi]` as a vector of its own.
fn char_range(v: &Vec<char>, lo: usize, hi: usize) -> (out: Vec<char>)
    requires
        lo <= hi <= v.len(),
    ensures
        out@ == v@.subrange(lo as int, hi as int),
{
    let mut out: Vec<char> = Vec::new();
    let mut i = lo;
    while i < hi
        invariant
            lo <= i <= hi <= v.len(),
            out@ == v@.subrange(lo as int, i as int),
        decreases hi - i,
    {
        out.push(v[i]);
        assert(v@.subrange(lo as int, i + 1) =~= v@.subrange(lo as int, i as int).push(v@[i as int]));
        i += 1;
    }
    out
}

fn one_char(c: char) -> (v: Vec<char>)
    ensures
        v@ == seq![c],
{
    let mut v: Vec<char> = Vec::new();
    v.push(c);
    assert(v@ =~= seq![c]);
    v
}

/// The components of `p`.
pub fn path_components(p: &str) -> (r: Vec<Vec<char>>)
    ensures
        char_vec_views(r@) == components(p@),
{
    let v = chars_of(p);
    let n = v.len();
    assert(v@.subrange(0, n as int) =~= v@);
    let segs = segment_ranges(&v, 0, n);
    let ghost sg = segments(v@);
    proof {
        lemma_segments_nonempty(v@);
    }
    let mut r: Vec<Vec<char>> = Vec::new();
    if n > 0 && v[0] == '/' {
        r.push(one_char('/'));
        assert(char_vec_views(r@) =~= seq![seq!['/']]);
    } else if n > 0 && segs[0].1 - segs[0].0 == 1 && v[segs[0].0] == '.' {
        r.push(one_char('.'));
        assert(range_text(v@, segs@[0]) =~= seq!['.']);
        assert(char_vec_views(r@) =~= seq![seq!['.']]);
    } else {
        proof {
            if n > 0 {
                assert(range_text(v@, segs@[0]) == sg[0]);
                if sg[0] == seq!['.'] {
                    assert(sg[0].len() == 1 && sg[0][0] == '.');
                    assert(range_text(v@, segs@[0])[0] == v@[segs@[0].0 as int]);
                }
            }
        }
        assert(char_vec_views(r@) =~= Seq::<Seq<char>>::empty());
    }
    let ghost lead = char_vec_views(r@);
    assert(lead == components(v@).subrange(0, lead.len() as int));
    let mut k: usize = 0;
    assert(sg.subrange(0, 0) =~= Seq::<Seq<char>>::empty());
    assert(lead + without_dots(sg.subrange(0, 0)) =~= lead);
    while k < segs.len()
        invariant
            n == v@.len(),
            sg == segments(v@),
            segs@.len() == sg.len(),
            forall|j: int| 0 <= j < segs@.len() ==> range_text(v@, #[trigger] segs@[j]) == sg[j],
            forall|j: int| 0 <= j < segs@.len() ==> 0 <= #[trigger] segs@[j].0 <= segs@[j].1 <= n,
            k <= segs@.len(),
            char_vec_views(r@) == lead + without_dots(sg.subrange(0, k as int)),
        decreases segs.len() - k,
    {
        let (a, b) = segs[k];
        let ghost before = char_vec_views(r@);
        assert(sg.subrange(0, k + 1).drop_last() =~= sg.subrange(0, k as int));
        assert(sg.subrange(0, k + 1).last() == sg[k as int]);
        assert(range_text(v@, segs@[k as int]) == sg[k as int]);
        let is_dot = b - a == 1 && v[a] == '.';
        proof {
            if b == a + 1 {
                assert(v@.subrange(a as int, b as int)[0] == v@[a as int]);
                if v@[a as int] == '.' {
                    assert(v@.subrange(a as int, b as int) =~= seq!['.']);
                }
            }
            if sg[k as int] == seq!['.'] {
                assert(sg[k as int].len() == 1);
            }
        }
        if !is_dot {
            let seg = char_range(&v, a, b);
            r.push(seg);
            assert(char_vec_views(r@) =~= before.push(sg[k as int]));
        } else {
            assert(char_vec_views(r@) == before);
        }
        k += 1;
    }
    assert(sg.subrange(0, sg.len() as int) =~= sg);
    r
}

/// Whether `a` and `b` name the same file, as `PathBuf`'s `==` decides.
pub fn same_path(a: &str, b: &str) -> (r: bool)
    ensures
        r == paths_equal(a@, b@),
{
    let ca = path_components(a);
    let cb = path_components(b);
    if ca.len() != cb.len() {
        assert(char_vec_views(ca@).len() != char_vec_views(cb@).len());
        assert(components(a@).len() != components(b@).len());
        return false;
    }
    let mut i: usize = 0;
    while i < ca.len()
        invariant
            ca@.len() == cb@.len(),
            char_vec_views(ca@) == components(a@),
            char_vec_views(cb@) == components(b@),
            i <= ca@.len(),
            forall|j: int| 0 <= j < i ==> ca@[j]@ == cb@[j]@,
        decreases ca.len() - i,
    {
        if !chars_equal(&ca[i], &cb[i]) {
            assert(char_vec_views(ca@)[i as int] != char_vec_views(cb@)[i as int]);
            assert(components(a@)[i as int] != components(b@)[i as int]);
            return false;
        }
        i += 1;
    }
    assert(char_vec_views(ca@) =~= char_vec_views(cb@));
    true
}

/// How deep the file tree shows `path` under the folder `root`: the number
/// of components between them, less one for the file itself; 0 when `path`
/// is not under `root`.
pub open spec fn tree_depth(root: Seq<char>, path: Seq<char>) -> int {
    let rc = components(root);
    let pc = components(path);
    if rc.len() < pc.len() && pc.subrange(0, rc.len() as int) == rc {
        pc.len() - rc.len() - 1
    } else {
        0
    }
}

/// The depth at which the file tree shows `path` under the folder `root`.
pub fn entry_depth(root: &str, path: &str) -> (d: usize)
    ensures
        d == tree_depth(root@, path@),
{
    let rc = path_components(root);
    let pc = path_components(path);
    let ghost rv = char_vec_views(rc@);
    let ghost pv = char_vec_views(pc@);
    assert(rv == components(root@) && pv == components(path@));
    if rc.len() >= pc.len() {
        return 0;
    }
    let mut i: usize = 0;
    while i < rc.len()
        invariant
            rc@.len() < pc@.len(),
            rv == char_vec_views(rc@),
            pv == char_vec_views(pc@),
            rv == components(root@),
            pv == components(path@),
            i <= rc@.len(),
            forall|j: int| 0 <= j < i ==> rc@[j]@ == pc@[j]@,
        decreases rc.len() - i,
    {
        if !chars_equal(&rc[i], &pc[i]) {
            assert(pv.subrange(0, rv.len() as int)[i as int] != rv[i as int]);
            assert(pv.subrange(0, rv.len() as int) != rv);
            return 0;
        }
        i += 1;
    }
    assert(pv.subrange(0, rv.len() as int) =~= rv);
    pc.len() - rc.len() - 1
}

} // verus!
