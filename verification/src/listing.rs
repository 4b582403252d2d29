//! Which entries of a folder the file tree shows, and in what order:
//! sub-folders first, then files, each by name; hidden folders skipped, only
//! Markdown and text files kept, and no deeper than a given depth.

use vstd::prelude::*;

use crate::cli::is_markdown_ext;
use crate::text::chars_of;

verus! {

/// What the tree needs to know of one entry of a folder.
#[derive(Debug)]
pub struct DirEntryInfo {
    /// The entry's file name.
    pub name: String,
    /// Whether the entry itself is a directory (links not followed); this
    /// decides its place in the order.
    pub sorts_as_dir: bool,
    /// Whether the entry's path leads to a directory (links followed); this
    /// decides whether it is descended into.
    pub is_dir: bool,
    /// The extension of the entry's path, empty if it has none.
    pub extension: String,
}

/// What to do with an entry, by its index in the folder's listing.
#[derive(Debug, Clone, Copy, PartialEq, Eq, Structural)]
pub enum ListingStep {
    /// List the files of this sub-folder here, one level deeper.
    Descend(usize),
    /// List this file.
    Include(usize),
}

/// Lexicographic order of strings by code point (the byte order of UTF-8).
pub open spec fn name_lt(a: Seq<char>, b: Seq<char>) -> bool
    decreases a.len(),
{
    if a.len() == 0 {
        b.len() > 0
    } else if b.len() == 0 {
        false
    } else if a[0] != b[0] {
        (a[0] as u32) < (b[0] as u32)
    } else {
        name_lt(a.drop_first(), b.drop_first())
    }
}

/// Sort key order: directories before files, then by name.
pub open spec fn entry_lt(a: DirEntryInfo, b: DirEntryInfo) -> bool {
    (a.sorts_as_dir && !b.sorts_as_dir) || (a.sorts_as_dir == b.sorts_as_dir && name_lt(
        a.name@,
        b.name@,
    ))
}

/// `order` lists each index of `e` once, sorted by key, equal keys in their
/// original order (what a stable sort by key gives).
pub open spec fn stably_sorted(e: Seq<DirEntryInfo>, order: Seq<usize>) -> bool {
    &&& order.len() == e.len()
    &&& forall|k: int| 0 <= k < order.len() ==> #[trigger] order[k] < e.len()
    &&& forall|k1: int, k2: int|
        0 <= k1 < k2 < order.len() ==> #[trigger] order[k1] != #[trigger] order[k2]
    &&& forall|k1: int, k2: int|
        0 <= k1 < k2 < order.len() ==> #[trigger] entry_lt(e[order[k1] as int], e[order[k2] as int])
            || (!entry_lt(e[order[k2] as int], e[order[k1] as int]) && order[k1] < order[k2])
}

/// A folder whose name starts with `.` is hidden.
pub open spec fn is_hidden(name: Seq<char>) -> bool {
    name.len() > 0 && name[0] == '.'
}

/// The steps for the entries in `order`.
pub open spec fn steps_for(e: Seq<DirEntryInfo>, order: Seq<usize>) -> Seq<ListingStep>
    decreases order.len(),
{
    if order.len() == 0 {
        Seq::empty()
    } else {
        let rest = steps_for(e, order.drop_last());
        let i = order.last();
        let x = e[i as int];
        if x.is_dir {
            if is_hidden(x.name@) {
                rest
            } else {
                rest.push(ListingStep::Descend(i))
            }
        } else if is_markdown_ext(x.extension@) {
            rest.push(ListingStep::Include(i))
        } else {
            rest
        }
    }
}

pub proof fn lemma_name_lt_total(a: Seq<char>, b: Seq<char>)
    ensures
        a != b ==> name_lt(a, b) || name_lt(b, a),
        !(name_lt(a, b) && name_lt(b, a)),
    decreases a.len(),
{
    if a.len() > 0 && b.len() > 0 {
        lemma_name_lt_total(a.drop_first(), b.drop_first());
        vstd::utf8::char_u32_cast(a[0], a[0] as u32);
        vstd::utf8::char_u32_cast(b[0], b[0] as u32);
        if a[0] == b[0] && a.drop_first() == b.drop_first() {
            assert(a =~= seq![a[0]] + a.drop_first());
            assert(b =~= seq![b[0]] + b.drop_first());
        }
    } else if a.len() == 0 && b.len() == 0 {
        assert(a =~= b);
    }
}

pub proof fn lemma_name_lt_transitive(a: Seq<char>, b: Seq<char>, c: Seq<char>)
    requires
        name_lt(a, b),
        name_lt(b, c),
    ensures
        name_lt(a, c),
    decreases a.len(),
{
    if a.len() > 0 && b.len() > 0 && c.len() > 0 {
        if a[0] == b[0] && b[0] == c[0] {
            lemma_name_lt_transitive(a.drop_first(), b.drop_first(), c.drop_first());
        }
    }
}

/// Keys are totally preordered: exactly one of `a < b`, `b < a`, equal keys.
pub proof fn lemma_entry_order(a: DirEntryInfo, b: DirEntryInfo, c: DirEntryInfo)
    ensures
        !(entry_lt(a, b) && entry_lt(b, a)),
        !entry_lt(a, b) && !entry_lt(b, a) ==> a.sorts_as_dir == b.sorts_as_dir && a.name@
            == b.name@,
        entry_lt(a, b) && entry_lt(b, c) ==> entry_lt(a, c),
        entry_lt(a, b) && !entry_lt(c, b) && !entry_lt(b, c) ==> entry_lt(a, c),
        !entry_lt(b, a) && !entry_lt(a, b) && entry_lt(b, c) ==> entry_lt(a, c),
{
    lemma_name_lt_total(a.name@, b.name@);
    lemma_name_lt_total(b.name@, c.name@);
    lemma_name_lt_total(a.name@, c.name@);
    if name_lt(a.name@, b.name@) && name_lt(b.name@, c.name@) {
        lemma_name_lt_transitive(a.name@, b.name@, c.name@);
    }
}

/// Whether `a`'s name sorts before `b`'s.
fn name_less(a: &Vec<char>, b: &Vec<char>) -> (r: bool)
    ensures
        r == name_lt(a@, b@),
{
    let mut i: usize = 0;
    assert(a@.subrange(0, a@.len() as int) =~= a@);
    assert(b@.subrange(0, b@.len() as int) =~= b@);
    assert(a@.subrange(0, 0) =~= b@.subrange(0, 0));
    while i < a.len() && i < b.len()
        invariant
            i <= a@.len(),
            i <= b@.len(),
            a@.subrange(0, i as int) == b@.subrange(0, i as int),
            name_lt(a@, b@) == name_lt(a@.subrange(i as int, a@.len() as int), b@.subrange(
                i as int,
                b@.len() as int,
            )),
        decreases a.len() - i,
    {
        let ghost sa = a@.subrange(i as int, a@.len() as int);
        let ghost sb = b@.subrange(i as int, b@.len() as int);
        assert(sa[0] == a@[i as int] && sb[0] == b@[i as int]);
        if a[i] != b[i] {
            return (a[i] as u32) < (b[i] as u32);
        }
        assert(sa.drop_first() =~= a@.subrange(i + 1, a@.len() as int));
        assert(sb.drop_first() =~= b@.subrange(i + 1, b@.len() as int));
        assert(a@.subrange(0, i + 1) =~= a@.subrange(0, i as int).push(a@[i as int]));
        assert(b@.subrange(0, i + 1) =~= b@.subrange(0, i as int).push(b@[i as int]));
        i += 1;
    }
    i == a.len() && i < b.len()
}

/// Whether entry `x` sorts before entry `y`.
fn entry_less(x: &DirEntryInfo, y: &DirEntryInfo) -> (r: bool)
    ensures
        r == entry_lt(*x, *y),
{
    if x.sorts_as_dir != y.sorts_as_dir {
        return x.sorts_as_dir;
    }
    let a = chars_of(x.name.as_str());
    let b = chars_of(y.name.as_str());
    name_less(&a, &b)
}

/// A stable sort of the entries by key, as a list of indices.
pub fn sort_entries(e: &Vec<DirEntryInfo>) -> (order: Vec<usize>)
    ensures
        stably_sorted(e@, order@),
{
    let mut order: Vec<usize> = Vec::new();
    let mut i: usize = 0;
    while i < e.len()
        invariant
            i <= e@.len(),
            order@.len() == i,
            forall|k: int| 0 <= k < order@.len() ==> #[trigger] order@[k] < i,
            forall|k1: int, k2: int|
                0 <= k1 < k2 < order@.len() ==> #[trigger] order@[k1] != #[trigger] order@[k2],
            forall|k1: int, k2: int|
                0 <= k1 < k2 < order@.len() ==> #[trigger] entry_lt(
                    e@[order@[k1] as int],
                    e@[order@[k2] as int],
                ) || (!entry_lt(e@[order@[k2] as int], e@[order@[k1] as int]) && order@[k1]
                    < order@[k2]),
        decreases e.len() - i,
    {
        // the first position whose entry sorts after entry i
        let mut p: usize = 0;
        while p < order.len() && !entry_less(&e[i], &e[order[p]])
            invariant
                i < e@.len(),
                p <= order@.len(),
                forall|k: int| 0 <= k < order@.len() ==> #[trigger] order@[k] < i,
                forall|q: int|
                    0 <= q < p ==> !entry_lt(e@[i as int], #[trigger] e@[order@[q] as int]),
            decreases order.len() - p,
        {
            p += 1;
        }
        let ghost old_order = order@;
        proof {
            if p < old_order.len() {
                assert(entry_lt(e@[i as int], e@[old_order[p as int] as int]));
                assert forall|q: int| p <= q < old_order.len() implies entry_lt(
                    e@[i as int],
                    #[trigger] e@[old_order[q] as int],
                ) by {
                    if q > p {
                        lemma_entry_order(
                            e@[i as int],
                            e@[old_order[p as int] as int],
                            e@[old_order[q] as int],
                        );
                        lemma_entry_order(
                            e@[old_order[q] as int],
                            e@[old_order[p as int] as int],
                            e@[i as int],
                        );
                    }
                }
            }
        }
        order.insert(p, i);
        proof {
            let o = order@;
            assert(o == old_order.insert(p as int, i));
            assert forall|k: int| 0 <= k < o.len() implies #[trigger] o[k] < i + 1 by {
                if k < p {
                    assert(o[k] == old_order[k]);
                } else if k > p {
                    assert(o[k] == old_order[k - 1]);
                }
            }
            assert forall|k1: int, k2: int| 0 <= k1 < k2 < o.len() implies #[trigger] o[k1]
                != #[trigger] o[k2] by {
                if k1 < p {
                    assert(o[k1] == old_order[k1]);
                } else if k1 > p {
                    assert(o[k1] == old_order[k1 - 1]);
                }
                if k2 < p {
                    assert(o[k2] == old_order[k2]);
                } else if k2 > p {
                    assert(o[k2] == old_order[k2 - 1]);
                }
            }
            assert forall|k1: int, k2: int| 0 <= k1 < k2 < o.len() implies #[trigger] entry_lt(
                e@[o[k1] as int],
                e@[o[k2] as int],
            ) || (!entry_lt(e@[o[k2] as int], e@[o[k1] as int]) && o[k1] < o[k2]) by {
                if k1 < p {
                    assert(o[k1] == old_order[k1]);
                } else if k1 > p {
                    assert(o[k1] == old_order[k1 - 1]);
                }
                if k2 < p {
                    assert(o[k2] == old_order[k2]);
                } else if k2 > p {
                    assert(o[k2] == old_order[k2 - 1]);
                }
                if k2 == p {
                    lemma_entry_order(e@[o[k1] as int], e@[i as int], e@[i as int]);
                }
            }
        }
        i += 1;
    }
    order
}

/// Whether a folder name marks a hidden folder.
fn hidden_name(name: &str) -> (b: bool)
    ensures
        b == is_hidden(name@),
{
    let v = chars_of(name);
    v.len() > 0 && v[0] == '.'
}

/// What the file tree does with the entries of a folder at `depth`: nothing
/// below `max_depth`; otherwise, in sorted order, descend into visible
/// sub-folders and list Markdown and text files.
pub fn plan_listing(entries: &Vec<DirEntryInfo>, depth: usize, max_depth: usize) -> (r: (
    Vec<usize>,
    Vec<ListingStep>,
))
    ensures
        depth > max_depth ==> r.0@.len() == 0 && r.1@.len() == 0,
        depth <= max_depth ==> stably_sorted(entries@, r.0@) && r.1@ == steps_for(entries@, r.0@),
{
    if depth > max_depth {
        return (Vec::new(), Vec::new());
    }
    let order = sort_entries(entries);
    let mut steps: Vec<ListingStep> = Vec::new();
    let mut k: usize = 0;
    while k < order.len()
        invariant
            stably_sorted(entries@, order@),
            k <= order@.len(),
            steps@ == steps_for(entries@, order@.subrange(0, k as int)),
        decreases order.len() - k,
    {
        let i = order[k];
        let ghost pre = order@.subrange(0, k + 1);
        assert(pre.drop_last() =~= order@.subrange(0, k as int));
        assert(pre.last() == i);
        let x = &entries[i];
        if x.is_dir {
            if !hidden_name(x.name.as_str()) {
                steps.push(ListingStep::Descend(i));
            }
        } else if crate::cli::is_markdown_extension(x.extension.as_str()) {
            steps.push(ListingStep::Include(i));
        }
        k += 1;
    }
    assert(order@.subrange(0, order@.len() as int) =~= order@);
    (order, steps)
}

} // verus!
