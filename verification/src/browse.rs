//! The directory tree builder: turns the flat list of slash-delimited
//! library paths into a navigable tree of directories and file leaves,
//! with breadcrumb ascent.
//!
//! The tree lives in an arena: `Browser::nodes` owns every directory, a
//! child holds the index of its parent for upward traversal only, and a
//! parent holds the indices of its children. A parent always stands at a
//! smaller index than its children, so ascent terminates and no cycle can
//! arise.

use itertools::Itertools;
use vstd::prelude::*;

use crate::text::find_slash;
use crate::text::lemma_lex_le_total;
use crate::text::lemma_lex_le_trans;
use crate::text::lex_le;
use crate::text::no_slash;
use crate::text::str_le;
use crate::text::strip_prefix_str;

verus! {

/// A file leaf: the full library-relative path and the name shown at its
/// place in the tree.
pub struct MediaFile {
    pub path: String,
    pub name: String,
}

/// A path is a file directly at `pre`: it extends `pre` and its remainder
/// holds no further separator.
pub open spec fn file_at(p: Seq<char>, pre: Seq<char>) -> bool {
    pre.is_prefix_of(p) && no_slash(p.skip(pre.len() as int))
}

/// A path lies strictly below `pre`: it extends `pre` and its remainder
/// still holds a separator.
pub open spec fn dir_path_at(p: Seq<char>, pre: Seq<char>) -> bool {
    pre.is_prefix_of(p) && !no_slash(p.skip(pre.len() as int))
}

/// The characters before the first separator of `s`.
pub open spec fn first_segment(s: Seq<char>) -> Seq<char>
    decreases s.len(),
{
    if s.len() == 0 {
        Seq::empty()
    } else if s[0] == '/' {
        Seq::empty()
    } else {
        seq![s[0]] + first_segment(s.skip(1))
    }
}

/// When the first separator of `s` stands at `i`, the first segment is
/// exactly the `i` characters before it.
proof fn lemma_first_segment_take(s: Seq<char>, i: int)
    requires
        0 <= i < s.len(),
        s[i] == '/',
        forall|k: int| 0 <= k < i ==> s[k] != '/',
    ensures
        first_segment(s) =~= s.take(i),
    decreases i,
{
    if i > 0 {
        lemma_first_segment_take(s.skip(1), i - 1);
        assert(first_segment(s) == seq![s[0]] + first_segment(s.skip(1)));
        assert(seq![s[0]] + s.skip(1).take(i - 1) =~= s.take(i));
    }
}

/// A collected file entry is sound for prefix `pre`: it is one of the
/// given paths, it lies directly at `pre`, and its display name is the
/// path's remainder past `pre`.
pub open spec fn file_entry_ok(f: MediaFile, pre: Seq<char>, paths: Seq<String>) -> bool {
    &&& file_at(f.path@, pre)
    &&& f.name@ == f.path@.skip(pre.len() as int)
    &&& exists|k: int| 0 <= k < paths.len() && (#[trigger] paths[k])@ == f.path@
}

/// File leaves are in ordinal order of their names.
pub open spec fn files_sorted(fs: Seq<MediaFile>) -> bool {
    forall|i: int, j: int| 0 <= i < j < fs.len() ==> lex_le(#[trigger] fs[i].name@, #[trigger] fs[j].name@)
}

/// Every path lying directly at `pre` has a leaf in `fs`.
pub open spec fn files_complete(fs: Seq<MediaFile>, pre: Seq<char>, paths: Seq<String>) -> bool {
    forall|k: int| 0 <= k < paths.len() && file_at((#[trigger] paths[k])@, pre) ==> exists|i: int|
        0 <= i < fs.len() && (#[trigger] fs[i]).path@ == paths[k]@
}

/// No two leaves store the same path.
pub open spec fn files_distinct(fs: Seq<MediaFile>) -> bool {
    forall|i: int, j: int|
        0 <= i < j < fs.len() ==> (#[trigger] fs[i]).path@ != (#[trigger] fs[j]).path@
}

/// Puts `f` at its place in a name-ordered vector of leaves; a leaf whose
/// path is new keeps the vector duplicate-free.
fn insert_file_sorted(fs: &mut Vec<MediaFile>, f: MediaFile)
    requires
        files_sorted(old(fs)@),
    ensures
        files_sorted(final(fs)@),
        final(fs)@.len() == old(fs)@.len() + 1,
        exists|pos: int| 0 <= pos <= old(fs)@.len() && final(fs)@ == old(fs)@.insert(pos, f),
        (files_distinct(old(fs)@) && (forall|k: int|
            0 <= k < old(fs)@.len() ==> (#[trigger] old(fs)@[k]).path@ != f.path@))
            ==> files_distinct(final(fs)@),
{
    let mut pos: usize = 0;
    while pos < fs.len() && str_le(fs[pos].name.as_str(), f.name.as_str())
        invariant
            0 <= pos <= fs@.len(),
            files_sorted(fs@),
            fs == old(fs),
            forall|k: int| 0 <= k < pos ==> lex_le((#[trigger] fs@[k]).name@, f.name@),
        decreases fs@.len() - pos,
    {
        pos = pos + 1;
    }
    proof {
        if pos < fs@.len() {
            lemma_lex_le_total(fs@[pos as int].name@, f.name@);
        }
        assert(forall|k: int| pos <= k < fs@.len() ==> lex_le(f.name@, (#[trigger] fs@[k]).name@))
            by {
            if pos < fs@.len() {
                assert forall|k: int| pos <= k < fs@.len() implies lex_le(
                    f.name@,
                    (#[trigger] fs@[k]).name@,
                ) by {
                    if k > pos {
                        lemma_lex_le_trans(f.name@, fs@[pos as int].name@, fs@[k].name@);
                    }
                }
            }
        }
        old(fs)@.insert_ensures(pos as int, f);
    }
    let ghost prior = fs@;
    fs.insert(pos, f);
    proof {
        prior.insert_ensures(pos as int, f);
        assert(files_sorted(fs@));
        if files_distinct(prior) && (forall|k: int|
            0 <= k < prior.len() ==> (#[trigger] prior[k]).path@ != f.path@) {
            assert forall|i: int, j: int| 0 <= i < j < fs@.len() implies (#[trigger] fs@[i]).path@
                != (#[trigger] fs@[j]).path@ by {
                let hi = if i < pos as int { i } else { i - 1 };
                let hj = if j < pos as int { j } else { j - 1 };
                if i != pos as int && j != pos as int {
                    assert(fs@[i] == prior[hi]);
                    assert(fs@[j] == prior[hj]);
                } else if i == pos as int {
                    assert(fs@[j] == prior[hj]);
                } else {
                    assert(fs@[i] == prior[hi]);
                }
            }
            assert(files_distinct(fs@));
        }
    }
}

/// Some element of `ns` reads as the characters `n`.
pub open spec fn has_name(ns: Seq<String>, n: Seq<char>) -> bool {
    exists|i: int| 0 <= i < ns.len() && (#[trigger] ns[i])@ == n
}

/// A directory name seen at `pre`: the first segment of some given path
/// that lies strictly below `pre`.
pub open spec fn name_entry_ok(n: Seq<char>, pre: Seq<char>, paths: Seq<String>) -> bool {
    exists|k: int|
        0 <= k < paths.len() && dir_path_at((#[trigger] paths[k])@, pre) && n == first_segment(
            paths[k]@.skip(pre.len() as int),
        )
}

/// Names are in ordinal order.
pub open spec fn names_sorted(ns: Seq<String>) -> bool {
    forall|i: int, j: int| 0 <= i < j < ns.len() ==> lex_le((#[trigger] ns[i])@, (#[trigger] ns[j])@)
}

/// No name occurs twice.
pub open spec fn names_distinct(ns: Seq<String>) -> bool {
    forall|i: int, j: int| 0 <= i < j < ns.len() ==> (#[trigger] ns[i])@ != (#[trigger] ns[j])@
}

/// Every path strictly below `pre` has its first segment among `ns`.
pub open spec fn names_complete(ns: Seq<String>, pre: Seq<char>, paths: Seq<String>) -> bool {
    forall|k: int| 0 <= k < paths.len() && dir_path_at((#[trigger] paths[k])@, pre) ==> has_name(
        ns,
        first_segment(paths[k]@.skip(pre.len() as int)),
    )
}

/// Inserting into a name list keeps exactly the names it had, plus the new
/// one.
proof fn lemma_insert_names(prior: Seq<String>, ns: Seq<String>, pos: int, x: String)
    requires
        0 <= pos <= prior.len(),
        ns == prior.insert(pos, x),
    ensures
        forall|n: Seq<char>| #[trigger] has_name(prior, n) ==> has_name(ns, n),
        has_name(ns, x@),
        forall|n: Seq<char>| #[trigger] has_name(ns, n) ==> has_name(prior, n) || n == x@,
{
    prior.insert_ensures(pos, x);
    assert forall|n: Seq<char>| #[trigger] has_name(prior, n) implies has_name(ns, n) by {
        let i = choose|i: int| 0 <= i < prior.len() && (#[trigger] prior[i])@ == n;
        if i < pos {
            assert(ns[i]@ == n);
        } else {
            assert(ns[i + 1]@ == n);
        }
    }
    assert(ns[pos]@ == x@);
    assert forall|n: Seq<char>| #[trigger] has_name(ns, n) implies has_name(prior, n) || n == x@ by {
        let i = choose|i: int| 0 <= i < ns.len() && (#[trigger] ns[i])@ == n;
        if i < pos {
            assert(prior[i]@ == n);
        } else if i > pos {
            assert(prior[i - 1]@ == n);
        }
    }
}

/// Relies on `itertools::Itertools::unique`: it filters out elements seen
/// before, keeping the first occurrence of each, with equality and hashing
/// of `String` agreeing with character equality.
#[verifier::external_body]
fn unique_names(v: Vec<String>) -> (r: Vec<String>)
    ensures
        names_distinct(r@),
        forall|i: int| 0 <= i < r@.len() ==> has_name(v@, (#[trigger] r@[i])@),
        forall|k: int| 0 <= k < v@.len() ==> has_name(r@, (#[trigger] v@[k])@),
{
    v.into_iter().unique().collect()
}

/// Puts `n`, known to be new, at its place in an ordered, duplicate-free
/// vector of names.
fn insert_name_sorted(ns: &mut Vec<String>, n: String)
    requires
        names_sorted(old(ns)@),
        names_distinct(old(ns)@),
        forall|k: int| 0 <= k < old(ns)@.len() ==> (#[trigger] old(ns)@[k])@ != n@,
    ensures
        names_sorted(final(ns)@),
        names_distinct(final(ns)@),
        forall|m: Seq<char>| #[trigger] has_name(old(ns)@, m) ==> has_name(final(ns)@, m),
        has_name(final(ns)@, n@),
        forall|m: Seq<char>| #[trigger] has_name(final(ns)@, m) ==> has_name(old(ns)@, m) || m
            == n@,
{
    let mut pos: usize = 0;
    while pos < ns.len() && str_le(ns[pos].as_str(), n.as_str())
        invariant
            0 <= pos <= ns@.len(),
            names_sorted(ns@),
            names_distinct(ns@),
            ns == old(ns),
            forall|k: int| 0 <= k < old(ns)@.len() ==> (#[trigger] old(ns)@[k])@ != n@,
            forall|k: int| 0 <= k < pos ==> lex_le((#[trigger] ns@[k])@, n@),
        decreases ns@.len() - pos,
    {
        pos = pos + 1;
    }
    proof {
        if pos < ns@.len() {
            lemma_lex_le_total(ns@[pos as int]@, n@);
        }
        assert forall|k: int| pos <= k < ns@.len() implies lex_le(n@, (#[trigger] ns@[k])@) by {
            if k > pos {
                lemma_lex_le_trans(n@, ns@[pos as int]@, ns@[k]@);
            }
        }
    }
    let ghost prior = ns@;
    ns.insert(pos, n);
    proof {
        prior.insert_ensures(pos as int, n);
        lemma_insert_names(prior, ns@, pos as int, n);
        assert(names_sorted(ns@));
        assert(names_distinct(ns@));
    }
}

/// Orders a duplicate-free list of names; the set of names is unchanged.
fn sort_names(v: Vec<String>) -> (r: Vec<String>)
    requires
        names_distinct(v@),
    ensures
        names_sorted(r@),
        names_distinct(r@),
        forall|i: int| 0 <= i < r@.len() ==> has_name(v@, (#[trigger] r@[i])@),
        forall|k: int| 0 <= k < v@.len() ==> has_name(r@, (#[trigger] v@[k])@),
{
    let mut r: Vec<String> = Vec::new();
    let mut k: usize = 0;
    while k < v.len()
        invariant
            k <= v@.len(),
            names_distinct(v@),
            names_sorted(r@),
            names_distinct(r@),
            forall|i: int| 0 <= i < r@.len() ==> has_name(v@.take(k as int), (#[trigger] r@[i])@),
            forall|q: int| 0 <= q < k ==> has_name(r@, (#[trigger] v@[q])@),
        decreases v@.len() - k,
    {
        let ghost prior = r@;
        let n = v[k].clone();
        proof {
            assert forall|j: int| 0 <= j < r@.len() implies (#[trigger] r@[j])@ != n@ by {
                let i = choose|i: int|
                    0 <= i < v@.take(k as int).len() && (#[trigger] v@.take(k as int)[i])@
                        == r@[j]@;
                assert(v@[i]@ == r@[j]@);
                assert(v@[i]@ != v@[k as int]@);
            }
        }
        insert_name_sorted(&mut r, n);
        proof {
            assert forall|i: int| 0 <= i < r@.len() implies has_name(
                v@.take(k as int + 1),
                (#[trigger] r@[i])@,
            ) by {
                assert(has_name(r@, r@[i]@));
                if r@[i]@ == n@ {
                    assert(v@.take(k as int + 1)[k as int]@ == r@[i]@);
                } else {
                    assert(has_name(prior, r@[i]@));
                    let q = choose|q: int|
                        0 <= q < prior.len() && (#[trigger] prior[q])@ == r@[i]@;
                    let w = choose|w: int|
                        0 <= w < v@.take(k as int).len() && (#[trigger] v@.take(k as int)[w])@
                            == prior[q]@;
                    assert(v@.take(k as int + 1)[w]@ == r@[i]@);
                }
            }
            assert forall|q: int| 0 <= q < k + 1 implies has_name(r@, (#[trigger] v@[q])@) by {
                if q < k {
                    assert(has_name(prior, v@[q]@));
                } else {
                    assert(v@[q]@ == n@);
                }
            }
        }
        k = k + 1;
    }
    proof {
        assert(v@.take(k as int) =~= v@);
    }
    r
}

/// The distinct directory names seen directly below `prefix`, in ordinal
/// order: for each given path that goes on past `prefix`, the segment of
/// its remainder before the next separator, deduplicated.
pub fn dir_names_at(prefix: &str, paths: &Vec<String>) -> (ns: Vec<String>)
    ensures
        forall|i: int| 0 <= i < ns@.len() ==> name_entry_ok((#[trigger] ns@[i])@, prefix@, paths@),
        names_complete(ns@, prefix@, paths@),
        names_sorted(ns@),
        names_distinct(ns@),
{
    let mut raw: Vec<String> = Vec::new();
    let mut k: usize = 0;
    while k < paths.len()
        invariant
            k <= paths@.len(),
            forall|i: int| 0 <= i < raw@.len() ==> name_entry_ok(
                (#[trigger] raw@[i])@,
                prefix@,
                paths@,
            ),
            names_complete(raw@, prefix@, paths@.take(k as int)),
        decreases paths@.len() - k,
    {
        let ghost prior = raw@;
        match strip_prefix_str(paths[k].as_str(), prefix) {
            Some(suffix) => {
                match find_slash(suffix.as_str()) {
                    Some(i) => {
                        let seg = suffix.as_str().substring_char(0, i);
                        proof {
                            assert(forall|q: int| 0 <= q < i ==> suffix@.take(i as int)[q]
                                == suffix@[q]);
                            lemma_first_segment_take(suffix@, i as int);
                            assert(suffix@.subrange(0, i as int) =~= suffix@.take(i as int));
                            assert(dir_path_at(paths@[k as int]@, prefix@));
                        }
                        let name = String::from_str(seg);
                        raw.push(name);
                        proof {
                            assert(raw@ == prior.push(name));
                            assert(raw@[prior.len() as int]@ == first_segment(
                                paths@[k as int]@.skip(prefix@.len() as int),
                            ));
                            assert forall|q: int|
                                0 <= q < k as int + 1 && dir_path_at(
                                    (#[trigger] paths@.take(k as int + 1)[q])@,
                                    prefix@,
                                ) implies has_name(
                                raw@,
                                first_segment(
                                    paths@.take(k as int + 1)[q]@.skip(prefix@.len() as int),
                                ),
                            ) by {
                                if q < k as int {
                                    assert(paths@.take(k as int + 1)[q] == paths@.take(
                                        k as int,
                                    )[q]);
                                    assert(has_name(
                                        prior,
                                        first_segment(
                                            paths@.take(k as int)[q]@.skip(prefix@.len() as int),
                                        ),
                                    ));
                                    let i2 = choose|i2: int|
                                        0 <= i2 < prior.len() && (#[trigger] prior[i2])@
                                            == first_segment(
                                            paths@.take(k as int)[q]@.skip(prefix@.len() as int),
                                        );
                                    assert(raw@[i2] == prior[i2]);
                                } else {
                                    assert(raw@[prior.len() as int]@ == first_segment(
                                        paths@.take(k as int + 1)[q]@.skip(prefix@.len() as int),
                                    ));
                                }
                            }
                        }
                    },
                    None => {
                        proof {
                            assert(!dir_path_at(paths@[k as int]@, prefix@));
                            assert(forall|q: int| 0 <= q < k as int + 1 ==> paths@.take(
                                k as int + 1,
                            )[q] == paths@[q]);
                        }
                    },
                }
            },
            None => {
                proof {
                    assert(!dir_path_at(paths@[k as int]@, prefix@));
                    assert(forall|q: int| 0 <= q < k as int + 1 ==> paths@.take(k as int + 1)[q]
                        == paths@[q]);
                }
            },
        }
        k = k + 1;
    }
    proof {
        assert(paths@.take(k as int) =~= paths@);
    }
    let uniq = unique_names(raw);
    sort_names(uniq)
}

/// A directory node in the arena: its display name, the index of its
/// parent (absent only for the root), the indices of its child
/// directories, its file leaves, and — for specification only — the path
/// prefix this directory covers.
pub struct Dir {
    pub name: String,
    pub parent: Option<usize>,
    pub children: Vec<usize>,
    pub files: Vec<MediaFile>,
    pub prefix: Ghost<Seq<char>>,
}

/// The browsing cursor: the arena that owns the whole tree (the root is
/// node 0) and the index of the directory in focus.
pub struct Browser {
    pub nodes: Vec<Dir>,
    pub focus: usize,
}

/// A node prefix is either the root's empty prefix or ends at a
/// separator.
pub open spec fn prefix_shaped(pre: Seq<char>) -> bool {
    pre.len() == 0 || pre[pre.len() - 1] == '/'
}

/// The `c`-th child link of node `i` is sound: the child stands at a
/// larger index, points back at `i`, and covers the parent's prefix
/// extended by its own name and a separator.
pub open spec fn child_link_ok(nodes: Seq<Dir>, i: int, c: int) -> bool {
    let d = nodes[i];
    let ci = d.children@[c] as int;
    &&& i < ci < nodes.len()
    &&& nodes[ci].parent == Some(i as usize)
    &&& nodes[ci].prefix@ == d.prefix@ + nodes[ci].name@ + seq!['/']
}

/// Node `i` is locally sound for the given path list: its child links are
/// sound, child names are ordered and deduplicated, its file leaves are
/// exactly the paths lying directly at its prefix in name order, and every
/// path going deeper has a child named by the next segment.
pub open spec fn node_ok(nodes: Seq<Dir>, i: int, paths: Seq<String>) -> bool {
    let d = nodes[i];
    &&& prefix_shaped(d.prefix@)
    &&& forall|c: int| 0 <= c < d.children@.len() ==> child_link_ok(nodes, i, c)
    &&& forall|c: int|
        0 <= c < d.children@.len() ==> name_entry_ok(
            (#[trigger] nodes[d.children@[c] as int]).name@,
            d.prefix@,
            paths,
        )
    &&& forall|c1: int, c2: int|
        0 <= c1 < c2 < d.children@.len() ==> lex_le(
            (#[trigger] nodes[d.children@[c1] as int]).name@,
            (#[trigger] nodes[d.children@[c2] as int]).name@,
        ) && nodes[d.children@[c1] as int].name@ != nodes[d.children@[c2] as int].name@
    &&& files_sorted(d.files@)
    &&& (names_distinct(paths) ==> files_distinct(d.files@))
    &&& forall|j: int| 0 <= j < d.files@.len() ==> file_entry_ok(#[trigger] d.files@[j], d.prefix@, paths)
    &&& files_complete(d.files@, d.prefix@, paths)
    &&& forall|k: int|
        0 <= k < paths.len() && dir_path_at((#[trigger] paths[k])@, d.prefix@) ==> exists|c: int|
            0 <= c < d.children@.len() && (#[trigger] nodes[d.children@[c] as int]).name@
                == first_segment(paths[k]@.skip(d.prefix@.len() as int))
}

/// Node `x` is listed among the children of the node its parent link
/// names: the tree holds it, not just the arena.
pub open spec fn attached(nodes: Seq<Dir>, x: int) -> bool {
    exists|p: usize, c: int|
        nodes[x].parent == Some(p) && (p as int) < x && 0 <= c < nodes[p as int].children@.len()
            && ((#[trigger] nodes[p as int].children@[c]) as int) == x
}

/// Node `x` is either one of `kids` or already attached below one.
pub open spec fn kid_or_attached(nodes: Seq<Dir>, kids: Seq<usize>, x: int) -> bool {
    ||| exists|c: int| 0 <= c < kids.len() && (#[trigger] kids[c]) as int == x
    ||| attached(nodes, x)
}

/// Everything the arena holds from `lo` on is one of `kids` or attached
/// below one of them.
#[verifier::opaque]
pub open spec fn all_attached_from(nodes: Seq<Dir>, kids: Seq<usize>, lo: int) -> bool {
    forall|x: int| lo <= x < nodes.len() ==> kid_or_attached(nodes, kids, x)
}

/// Every child index of node `i` lies below `end`.
pub open spec fn children_below(nodes: Seq<Dir>, i: int, end: int) -> bool {
    forall|c: int| 0 <= c < nodes[i].children@.len() ==> (#[trigger] nodes[i].children@[c]) < end
}

/// Node `i` has a parent, at a smaller index: upward traversal always
/// moves down the arena and so terminates.
pub open spec fn parent_below(nodes: Seq<Dir>, i: int) -> bool {
    nodes[i].parent matches Some(p) && (p as int) < i
}

/// Every node of `[start, end)` is locally sound with its children inside
/// `(i, end)` and its parent below itself.
pub open spec fn segment_ok(nodes: Seq<Dir>, start: int, end: int, paths: Seq<String>) -> bool {
    &&& 0 <= start <= end <= nodes.len()
    &&& forall|i: int|
        start <= i < end ==> #[trigger] node_ok(nodes, i, paths) && children_below(nodes, i, end)
            && parent_below(nodes, i)
}

/// Everything `segment_ok` says about `[start, end)` reads only the nodes
/// of `[start, end)`, so it survives any change outside that range.
proof fn lemma_segment_stable(
    ns: Seq<Dir>,
    ns2: Seq<Dir>,
    start: int,
    end: int,
    paths: Seq<String>,
)
    requires
        segment_ok(ns, start, end, paths),
        ns2.len() >= end,
        forall|j: int| start <= j < end ==> ns2[j] == ns[j],
    ensures
        segment_ok(ns2, start, end, paths),
{
    assert forall|i: int|
        start <= i < end implies #[trigger] node_ok(ns2, i, paths) && children_below(ns2, i, end)
        && parent_below(ns2, i) by {
        assert(node_ok(ns, i, paths));
        let d = ns2[i];
        assert(d == ns[i]);
        assert forall|c: int| 0 <= c < d.children@.len() implies child_link_ok(ns2, i, c) by {
            assert(child_link_ok(ns, i, c));
            assert(ns[i].children@[c] < end);
            assert(ns2[ns[i].children@[c] as int] == ns[ns[i].children@[c] as int]);
        }
        assert forall|c: int| 0 <= c < d.children@.len() implies name_entry_ok(
            (#[trigger] ns2[d.children@[c] as int]).name@,
            d.prefix@,
            paths,
        ) by {
            assert(child_link_ok(ns, i, c));
            assert(ns[i].children@[c] < end);
            assert(ns2[d.children@[c] as int] == ns[d.children@[c] as int]);
            assert(name_entry_ok(ns[d.children@[c] as int].name@, ns[i].prefix@, paths));
        }
        assert forall|c1: int, c2: int| 0 <= c1 < c2 < d.children@.len() implies lex_le(
            (#[trigger] ns2[d.children@[c1] as int]).name@,
            (#[trigger] ns2[d.children@[c2] as int]).name@,
        ) && ns2[d.children@[c1] as int].name@ != ns2[d.children@[c2] as int].name@ by {
            assert(child_link_ok(ns, i, c1));
            assert(child_link_ok(ns, i, c2));
            assert(ns[i].children@[c1] < end && ns[i].children@[c2] < end);
            assert(ns2[d.children@[c1] as int] == ns[d.children@[c1] as int]);
            assert(ns2[d.children@[c2] as int] == ns[d.children@[c2] as int]);
            assert(lex_le(
                ns[d.children@[c1] as int].name@,
                ns[d.children@[c2] as int].name@,
            ) && ns[d.children@[c1] as int].name@ != ns[d.children@[c2] as int].name@);
        }
        assert forall|k: int|
            0 <= k < paths.len() && dir_path_at((#[trigger] paths[k])@, d.prefix@) implies exists|
            c: int,
        |
            0 <= c < d.children@.len() && (#[trigger] ns2[d.children@[c] as int]).name@
                == first_segment(paths[k]@.skip(d.prefix@.len() as int)) by {
            let c = choose|c: int|
                0 <= c < d.children@.len() && (#[trigger] ns[d.children@[c] as int]).name@
                    == first_segment(paths[k]@.skip(d.prefix@.len() as int));
            assert(child_link_ok(ns, i, c));
            assert(ns[i].children@[c] < end);
            assert(ns2[d.children@[c] as int] == ns[d.children@[c] as int]);
            assert(ns2[d.children@[c] as int].name@ == first_segment(
                paths[k]@.skip(d.prefix@.len() as int),
            ));
        }
    }
}

/// A sequence that is not slash-free has a first separator.
proof fn lemma_first_slash_exists(s: Seq<char>)
    requires
        !no_slash(s),
    ensures
        exists|i: int|
            0 <= i < s.len() && s[i] == '/' && (forall|k: int| 0 <= k < i ==> s[k] != '/'),
    decreases s.len(),
{
    let j = choose|j: int| 0 <= j < s.len() && s[j] == '/';
    if s[0] == '/' {
        assert(0 <= 0 < s.len() && s[0] == '/' && (forall|k: int| 0 <= k < 0 ==> s[k] != '/'));
    } else {
        assert(s.skip(1)[j - 1] == '/');
        assert(!no_slash(s.skip(1)));
        lemma_first_slash_exists(s.skip(1));
        let i = choose|i: int|
            0 <= i < s.skip(1).len() && s.skip(1)[i] == '/' && (forall|k: int|
                0 <= k < i ==> s.skip(1)[k] != '/');
        assert(s[i + 1] == '/');
        assert(forall|k: int| 1 <= k < i + 1 ==> s[k] == s.skip(1)[k - 1]);
        assert(0 <= i + 1 < s.len() && s[i + 1] == '/' && (forall|k: int|
            0 <= k < i + 1 ==> s[k] != '/'));
    }
}

/// For a path going deeper than `pre`, the prefix extended by the next
/// segment and a separator still leads the path.
proof fn lemma_child_prefix(p: Seq<char>, pre: Seq<char>)
    requires
        dir_path_at(p, pre),
    ensures
        (pre + first_segment(p.skip(pre.len() as int)) + seq!['/']).is_prefix_of(p),
        (pre + first_segment(p.skip(pre.len() as int)) + seq!['/']).len() > pre.len(),
{
    let suf = p.skip(pre.len() as int);
    lemma_first_slash_exists(suf);
    let i0 = choose|i0: int|
        0 <= i0 < suf.len() && suf[i0] == '/' && (forall|k: int| 0 <= k < i0 ==> suf[k] != '/');
    lemma_first_segment_take(suf, i0);
    let ext = pre + first_segment(suf) + seq!['/'];
    assert(ext =~= p.take(pre.len() + i0 + 1));
    assert(ext.is_prefix_of(p)) by {
        assert(ext.len() <= p.len());
        assert(ext =~= p.subrange(0, ext.len() as int));
    }
}

/// The length of the longest given path.
pub open spec fn max_path_len(paths: Seq<String>) -> int
    decreases paths.len(),
{
    if paths.len() == 0 {
        0
    } else {
        let rest = max_path_len(paths.drop_last());
        if paths.last()@.len() > rest {
            paths.last()@.len() as int
        } else {
            rest
        }
    }
}

/// No path is longer than the longest.
proof fn lemma_max_path_len(paths: Seq<String>, k: int)
    requires
        0 <= k < paths.len(),
    ensures
        (paths[k])@.len() <= max_path_len(paths),
    decreases paths.len(),
{
    if k == paths.len() - 1 {
    } else {
        lemma_max_path_len(paths.drop_last(), k);
        assert(paths.drop_last()[k] == paths[k]);
    }
}

/// A freshly built child of `parent`, somewhere at or above `lo`.
pub open spec fn kid_ok(nodes: Seq<Dir>, ki: usize, parent: usize, pre: Seq<char>, lo: int) -> bool {
    let i = ki as int;
    &&& lo <= i < nodes.len()
    &&& nodes[i].parent == Some(parent)
    &&& nodes[i].prefix@ == pre + nodes[i].name@ + seq!['/']
}

/// Paths sharing a directory land in the same `Dir`: a sound node whose
/// prefix is the shared directory of two paths holds a leaf for each of
/// them, and its parent lists that directory name once, so no second node
/// for it hangs beside it.
pub proof fn lemma_shared_prefix_shared_dir(
    nodes: Seq<Dir>,
    paths: Seq<String>,
    i: int,
    k1: int,
    k2: int,
)
    requires
        0 <= i < nodes.len(),
        node_ok(nodes, i, paths),
        0 <= k1 < paths.len(),
        0 <= k2 < paths.len(),
        file_at((paths[k1])@, nodes[i].prefix@),
        file_at((paths[k2])@, nodes[i].prefix@),
    ensures
        exists|j: int|
            0 <= j < nodes[i].files@.len() && (#[trigger] nodes[i].files@[j]).path@ == (
            paths[k1])@,
        exists|j: int|
            0 <= j < nodes[i].files@.len() && (#[trigger] nodes[i].files@[j]).path@ == (
            paths[k2])@,
{
}

/// Some leaf of the arena stores exactly the path `p`.
pub open spec fn tree_has_path(nodes: Seq<Dir>, p: Seq<char>) -> bool {
    exists|i: int, j: int|
        0 <= i < nodes.len() && 0 <= j < nodes[i].files@.len() && (#[trigger] nodes[i].files@[j]).path@
            == p
}

/// Walking down any chain of sound nodes whose prefix leads `paths[k]`
/// ends at a leaf storing that very path.
proof fn lemma_path_covered(nodes: Seq<Dir>, paths: Seq<String>, i: int, k: int)
    requires
        forall|j: int| 0 <= j < nodes.len() ==> #[trigger] node_ok(nodes, j, paths),
        0 <= i < nodes.len(),
        0 <= k < paths.len(),
        nodes[i].prefix@.is_prefix_of((paths[k])@),
    ensures
        tree_has_path(nodes, (paths[k])@),
    decreases (paths[k])@.len() - nodes[i].prefix@.len(),
{
    let p = (paths[k])@;
    let pre = nodes[i].prefix@;
    assert(node_ok(nodes, i, paths));
    if no_slash(p.skip(pre.len() as int)) {
        assert(file_at(p, pre));
        let j = choose|j: int|
            0 <= j < nodes[i].files@.len() && (#[trigger] nodes[i].files@[j]).path@ == p;
        assert(0 <= i < nodes.len() && 0 <= j < nodes[i].files@.len() && nodes[i].files@[j].path@
            == p);
    } else {
        assert(dir_path_at(p, pre));
        let c = choose|c: int|
            0 <= c < nodes[i].children@.len() && (#[trigger] nodes[nodes[i].children@[c] as int]).name@
                == first_segment(p.skip(pre.len() as int));
        assert(child_link_ok(nodes, i, c));
        let ci = nodes[i].children@[c] as int;
        lemma_child_prefix(p, pre);
        assert(nodes[ci].prefix@ =~= pre + first_segment(p.skip(pre.len() as int)) + seq!['/']);
        assert(nodes[ci].prefix@.is_prefix_of(p));
        lemma_path_covered(nodes, paths, ci, k);
    }
}

impl Browser {
    /// The file leaves lying directly at `prefix`: every given path that
    /// extends `prefix` with no further separator, named by its remainder,
    /// in ordinal order of names.
    pub fn files_with_prefix(prefix: &str, paths: &Vec<String>) -> (fs: Vec<MediaFile>)
        ensures
            forall|i: int| 0 <= i < fs@.len() ==> file_entry_ok(#[trigger] fs@[i], prefix@, paths@),
            files_complete(fs@, prefix@, paths@),
            files_sorted(fs@),
            names_distinct(paths@) ==> files_distinct(fs@),
    {
        let mut fs: Vec<MediaFile> = Vec::new();
        let mut k: usize = 0;
        while k < paths.len()
            invariant
                k <= paths@.len(),
                forall|i: int| 0 <= i < fs@.len() ==> file_entry_ok(#[trigger] fs@[i], prefix@, paths@),
                files_complete(fs@, prefix@, paths@.take(k as int)),
                files_sorted(fs@),
                forall|i: int| 0 <= i < fs@.len() ==> exists|q: int|
                    0 <= q < k && (#[trigger] paths@[q])@ == (#[trigger] fs@[i]).path@,
                names_distinct(paths@) ==> files_distinct(fs@),
            decreases paths@.len() - k,
        {
            let ghost prior = fs@;
            match strip_prefix_str(paths[k].as_str(), prefix) {
                Some(suffix) => {
                    match find_slash(suffix.as_str()) {
                        None => {
                            let f = MediaFile { path: paths[k].clone(), name: suffix };
                            proof {
                                if names_distinct(paths@) {
                                    assert forall|i: int|
                                        0 <= i < fs@.len() implies (#[trigger] fs@[i]).path@
                                        != f.path@ by {
                                        let q = choose|q: int|
                                            0 <= q < k && (#[trigger] paths@[q])@ == fs@[i].path@;
                                        assert(paths@[q]@ != paths@[k as int]@);
                                    }
                                }
                            }
                            insert_file_sorted(&mut fs, f);
                            proof {
                                let pos = choose|pos: int|
                                    0 <= pos <= prior.len() && fs@ == prior.insert(pos, f);
                                prior.insert_ensures(pos, f);
                                assert forall|i: int| 0 <= i < fs@.len() implies file_entry_ok(
                                    #[trigger] fs@[i],
                                    prefix@,
                                    paths@,
                                ) by {
                                    if i != pos {
                                        let h = if i < pos { i } else { i - 1 };
                                        assert(fs@[i] == prior[h]);
                                    }
                                }
                                assert(files_complete(fs@, prefix@, paths@.take(k as int + 1)))
                                    by {
                                    assert forall|q: int|
                                        0 <= q < k as int + 1 && file_at(
                                            (#[trigger] paths@.take(k as int + 1)[q])@,
                                            prefix@,
                                        ) implies exists|i: int|
                                        0 <= i < fs@.len() && (#[trigger] fs@[i]).path@
                                            == paths@.take(k as int + 1)[q]@ by {
                                        if q < k as int {
                                            let i = choose|i: int|
                                                0 <= i < prior.len() && (#[trigger] prior[i]).path@
                                                    == paths@.take(k as int)[q]@;
                                            let j = if i < pos { i } else { i + 1 };
                                            assert(fs@[j] == prior[i]);
                                        } else {
                                            assert(fs@[pos].path@ == paths@[k as int]@);
                                        }
                                    }
                                }
                                assert forall|i: int| 0 <= i < fs@.len() implies exists|q: int|
                                    0 <= q < k as int + 1 && (#[trigger] paths@[q])@ == (
                                #[trigger] fs@[i]).path@ by {
                                    if i != pos {
                                        let h = if i < pos { i } else { i - 1 };
                                        assert(fs@[i] == prior[h]);
                                        let q = choose|q: int|
                                            0 <= q < k && (#[trigger] paths@[q])@ == prior[h].path@;
                                        assert(paths@[q]@ == fs@[i].path@);
                                    } else {
                                        assert(paths@[k as int]@ == fs@[i].path@);
                                    }
                                }
                            }
                        },
                        Some(_) => {
                            proof {
                                assert(!file_at(paths@[k as int]@, prefix@));
                                assert(files_complete(fs@, prefix@, paths@.take(k as int + 1)))
                                    by {
                                    assert(forall|q: int| 0 <= q < k as int ==> paths@.take(
                                        k as int + 1,
                                    )[q] == paths@.take(k as int)[q]);
                                }
                                assert forall|i: int| 0 <= i < fs@.len() implies exists|q: int|
                                    0 <= q < k as int + 1 && (#[trigger] paths@[q])@ == (
                                #[trigger] fs@[i]).path@ by {
                                    let q = choose|q: int|
                                        0 <= q < k && (#[trigger] paths@[q])@ == fs@[i].path@;
                                }
                            }
                        },
                    }
                },
                None => {
                    proof {
                        assert(!file_at(paths@[k as int]@, prefix@));
                        assert(files_complete(fs@, prefix@, paths@.take(k as int + 1))) by {
                            assert(forall|q: int| 0 <= q < k as int ==> paths@.take(k as int + 1)[q]
                                == paths@.take(k as int)[q]);
                        }
                        assert forall|i: int| 0 <= i < fs@.len() implies exists|q: int|
                            0 <= q < k as int + 1 && (#[trigger] paths@[q])@ == (
                        #[trigger] fs@[i]).path@ by {
                            let q = choose|q: int|
                                0 <= q < k && (#[trigger] paths@[q])@ == fs@[i].path@;
                        }
                    }
                },
            }
            k = k + 1;
        }
        proof {
            assert(paths@.take(k as int) =~= paths@);
        }
        fs
    }

    /// After one subtree is finished (its root pushed at `my_idx`, its inner
/// nodes grown by recursion, and its children list filled in), everything
/// the arena gained since `lo` is either one of the updated kid list or
/// attached below one.
proof fn lemma_loop_attach(
    before_push: Seq<Dir>,
    after_rec: Seq<Dir>,
    ns: Seq<Dir>,
    kids_before: Seq<usize>,
    kids: Seq<usize>,
    inner_kids: Seq<usize>,
    lo: int,
    my_idx: usize,
    new_prefix: Seq<char>,
)
    requires
        0 <= lo <= my_idx as int,
        my_idx as int == before_push.len(),
        after_rec.len() >= my_idx as int + 1,
        ns.len() == after_rec.len(),
        forall|j: int| 0 <= j < my_idx as int ==> after_rec[j] == before_push[j],
        forall|j: int| 0 <= j < ns.len() && j != my_idx as int ==> ns[j] == after_rec[j],
        ns[my_idx as int].children@ == inner_kids,
        ns[my_idx as int].parent == after_rec[my_idx as int].parent,
        after_rec[my_idx as int].children@.len() == 0,
        forall|x: int| lo <= x < my_idx as int ==> kid_or_attached(before_push, kids_before, x),
        forall|x: int|
            my_idx as int + 1 <= x < after_rec.len() ==> kid_or_attached(after_rec, inner_kids, x),
        forall|c: int|
            0 <= c < inner_kids.len() ==> kid_ok(
                after_rec,
                #[trigger] inner_kids[c],
                my_idx,
                new_prefix,
                my_idx as int + 1,
            ),
        kids == kids_before.push(my_idx),
    ensures
        forall|x: int| lo <= x < ns.len() ==> kid_or_attached(ns, kids, x),
{
    assert forall|x: int| lo <= x < ns.len() implies kid_or_attached(ns, kids, x) by {
        if x == my_idx as int {
            assert(kids[kids.len() - 1] as int == x);
        } else if x > my_idx as int {
            assert(kid_or_attached(after_rec, inner_kids, x));
            if attached(after_rec, x) {
                let (p, ac) = choose|p: usize, ac: int|
                    after_rec[x].parent == Some(p) && (p as int) < x && 0 <= ac < after_rec[p as int].children@.len()
                        && ((#[trigger] after_rec[p as int].children@[ac]) as int) == x;
                assert(p as int != my_idx as int);
                assert(ns[p as int] == after_rec[p as int]);
                assert(ns[x] == after_rec[x]);
                assert((ns[p as int].children@[ac] as int) == x);
                assert(attached(ns, x));
            } else {
                let ic = choose|ic: int|
                    0 <= ic < inner_kids.len() && ((#[trigger] inner_kids[ic]) as int) == x;
                assert(kid_ok(after_rec, inner_kids[ic], my_idx, new_prefix, my_idx as int + 1));
                assert(ns[x] == after_rec[x]);
                assert(ns[x].parent == Some(my_idx));
                assert((ns[my_idx as int].children@[ic] as int) == x);
                assert(attached(ns, x));
            }
        } else {
            assert(kid_or_attached(before_push, kids_before, x));
            if attached(before_push, x) {
                let (p, ac) = choose|p: usize, ac: int|
                    before_push[x].parent == Some(p) && (p as int) < x && 0 <= ac < before_push[p as int].children@.len()
                        && ((#[trigger] before_push[p as int].children@[ac]) as int) == x;
                assert(ns[p as int] == before_push[p as int]);
                assert(ns[x] == before_push[x]);
                assert((ns[p as int].children@[ac] as int) == x);
                assert(attached(ns, x));
            } else {
                let ic = choose|ic: int|
                    0 <= ic < kids_before.len() && ((#[trigger] kids_before[ic]) as int) == x;
                assert(kids[ic] as int == x);
            }
        }
    }
}

/// Builds, in the arena, one subtree node for every distinct directory
    /// name seen directly below `prefix`, in name order, and returns their
    /// indices. Every path of the library going deeper than `prefix` ends up
    /// as a leaf of the subtree rooted at the child named by its next segment.
    #[verifier::rlimit(30)]
    pub fn dirs_with_prefix(
        nodes: &mut Vec<Dir>,
        parent: usize,
        prefix: &String,
        paths: &Vec<String>,
    ) -> (kids: Vec<usize>)
        requires
            (parent as int) < old(nodes)@.len(),
        ensures
            final(nodes)@.len() >= old(nodes)@.len(),
            forall|j: int| 0 <= j < old(nodes)@.len() ==> final(nodes)@[j] == old(nodes)@[j],
            segment_ok(
                final(nodes)@,
                old(nodes)@.len() as int,
                final(nodes)@.len() as int,
                paths@,
            ),
            forall|c: int|
                0 <= c < kids@.len() ==> kid_ok(
                    final(nodes)@,
                    #[trigger] kids@[c],
                    parent,
                    prefix@,
                    old(nodes)@.len() as int,
                ),
            forall|c1: int, c2: int|
                0 <= c1 < c2 < kids@.len() ==> lex_le(
                    (#[trigger] final(nodes)@[kids@[c1] as int]).name@,
                    (#[trigger] final(nodes)@[kids@[c2] as int]).name@,
                ) && final(nodes)@[kids@[c1] as int].name@ != final(nodes)@[kids@[c2] as int].name@,
            forall|c: int|
                0 <= c < kids@.len() ==> name_entry_ok(
                    (#[trigger] final(nodes)@[kids@[c] as int]).name@,
                    prefix@,
                    paths@,
                ),
            forall|k: int|
                0 <= k < paths@.len() && dir_path_at((#[trigger] paths@[k])@, prefix@) ==> exists|c: int|
                    0 <= c < kids@.len() && (#[trigger] final(nodes)@[kids@[c] as int]).name@
                        == first_segment(paths@[k]@.skip(prefix@.len() as int)),
            all_attached_from(final(nodes)@, kids@, old(nodes)@.len() as int),
        decreases max_path_len(paths@) + 1 - prefix@.len(),
    {
        let names = dir_names_at(prefix.as_str(), paths);
        let mut kids: Vec<usize> = Vec::new();
        let ghost lo = nodes@.len() as int;
        proof {
            reveal(all_attached_from);
            assert(all_attached_from(nodes@, kids@, lo));
        }
        let mut c: usize = 0;
        while c < names.len()
            invariant
                (parent as int) < lo,
                lo == old(nodes)@.len(),
                nodes@.len() >= lo,
                c <= names@.len(),
                kids@.len() == c,
                forall|j: int| 0 <= j < lo ==> nodes@[j] == old(nodes)@[j],
                segment_ok(nodes@, lo, nodes@.len() as int, paths@),
                forall|x: int|
                    0 <= x < c ==> kid_ok(nodes@, #[trigger] kids@[x], parent, prefix@, lo),
                forall|x: int|
                    0 <= x < c ==> (#[trigger] nodes@[kids@[x] as int]).name@ == (names@[x])@,
                forall|x: int|
                    0 <= x < c ==> name_entry_ok(
                        (#[trigger] nodes@[kids@[x] as int]).name@,
                        prefix@,
                        paths@,
                    ),
                all_attached_from(nodes@, kids@, lo),
                forall|i: int| 0 <= i < names@.len() ==> name_entry_ok(
                    (#[trigger] names@[i])@,
                    prefix@,
                    paths@,
                ),
                names_complete(names@, prefix@, paths@),
                names_sorted(names@),
                names_distinct(names@),
            decreases names@.len() - c,
        {
            let n = names[c].clone();
            let my_idx = nodes.len();
            let mut new_prefix = prefix.clone();
            new_prefix.append(n.as_str());
            new_prefix.append("/");
            proof {
                reveal_strlit("/");
                assert("/"@ =~= seq!['/']);
                assert(new_prefix@ == prefix@ + n@ + seq!['/']);
            }
            let files = Self::files_with_prefix(new_prefix.as_str(), paths);
            let d = Dir {
                name: n,
                parent: Some(parent),
                children: Vec::new(),
                files: files,
                prefix: Ghost(new_prefix@),
            };
            let ghost before_push = nodes@;
            nodes.push(d);
            proof {
                lemma_segment_stable(before_push, nodes@, lo, before_push.len() as int, paths@);
                // the new prefix is led by an actual path, so the measure of the
                // recursive call stays within bounds
                assert(name_entry_ok((names@[c as int])@, prefix@, paths@));
                let k = choose|k: int|
                    0 <= k < paths@.len() && dir_path_at((#[trigger] paths@[k])@, prefix@) && (
                    names@[c as int])@ == first_segment(paths@[k]@.skip(prefix@.len() as int));
                lemma_child_prefix(paths@[k]@, prefix@);
                lemma_max_path_len(paths@, k);
                assert(new_prefix@.len() <= paths@[k]@.len());
            }
            let inner_kids = Self::dirs_with_prefix(nodes, my_idx, &new_prefix, paths);
            let ghost after_rec = nodes@;
            let ghost filled = Dir {
                children: inner_kids,
                ..after_rec[my_idx as int]
            };
            nodes[my_idx].children = inner_kids;
            proof {
                assert(nodes@ =~= after_rec.update(my_idx as int, filled));
                // the already finished parts read nothing at the updated index
                lemma_segment_stable(before_push, after_rec, lo, my_idx as int, paths@);
                lemma_segment_stable(after_rec, nodes@, lo, my_idx as int, paths@);
                lemma_segment_stable(
                    after_rec,
                    nodes@,
                    my_idx as int + 1,
                    nodes@.len() as int,
                    paths@,
                );
                // the node just filled in is locally sound
                assert(node_ok(nodes@, my_idx as int, paths@)) by {
                    let ns = nodes@;
                    let dd = ns[my_idx as int];
                    assert(dd.files@ == files@);
                    assert(dd.prefix@ == new_prefix@);
                    assert forall|cc: int| 0 <= cc < dd.children@.len() implies child_link_ok(
                        ns,
                        my_idx as int,
                        cc,
                    ) by {
                        assert(kid_ok(after_rec, inner_kids@[cc], my_idx, new_prefix@, my_idx as int + 1));
                        assert(ns[inner_kids@[cc] as int] == after_rec[inner_kids@[cc] as int]);
                    }
                    assert forall|cc: int| 0 <= cc < dd.children@.len() implies name_entry_ok(
                        (#[trigger] ns[dd.children@[cc] as int]).name@,
                        dd.prefix@,
                        paths@,
                    ) by {
                        assert(kid_ok(after_rec, inner_kids@[cc], my_idx, new_prefix@, my_idx as int + 1));
                        assert(ns[inner_kids@[cc] as int] == after_rec[inner_kids@[cc] as int]);
                        assert(name_entry_ok(
                            after_rec[inner_kids@[cc] as int].name@,
                            new_prefix@,
                            paths@,
                        ));
                    }
                    assert forall|k: int|
                        0 <= k < paths@.len() && dir_path_at(
                            (#[trigger] paths@[k])@,
                            dd.prefix@,
                        ) implies exists|cc: int|
                        0 <= cc < dd.children@.len() && (#[trigger] ns[dd.children@[cc] as int]).name@
                            == first_segment(paths@[k]@.skip(dd.prefix@.len() as int)) by {
                        let cc = choose|cc: int|
                            0 <= cc < inner_kids@.len() && (#[trigger] after_rec[inner_kids@[cc] as int]).name@
                                == first_segment(paths@[k]@.skip(new_prefix@.len() as int));
                        assert(ns[dd.children@[cc] as int].name@ == first_segment(
                            paths@[k]@.skip(dd.prefix@.len() as int),
                        ));
                    }
                }
                assert(segment_ok(nodes@, lo, nodes@.len() as int, paths@)) by {
                    assert forall|i: int|
                        lo <= i < nodes@.len() implies node_ok(nodes@, i, paths@) && children_below(
                        nodes@,
                        i,
                        nodes@.len() as int,
                    ) && parent_below(nodes@, i) by {
                        if i < my_idx as int {
                            assert(node_ok(nodes@, i, paths@) && children_below(
                                nodes@,
                                i,
                                my_idx as int,
                            ) && parent_below(nodes@, i));
                        } else if i == my_idx as int {
                            assert(children_below(nodes@, i, nodes@.len() as int)) by {
                                assert forall|cc: int|
                                    0 <= cc < nodes@[i].children@.len() implies (#[trigger] nodes@[i].children@[cc])
                                    < nodes@.len() as int by {
                                    assert(kid_ok(
                                        after_rec,
                                        inner_kids@[cc],
                                        my_idx,
                                        new_prefix@,
                                        my_idx as int + 1,
                                    ));
                                }
                            }
                            assert(parent_below(nodes@, i));
                        } else {
                            assert(node_ok(nodes@, i, paths@) && children_below(
                                nodes@,
                                i,
                                nodes@.len() as int,
                            ) && parent_below(nodes@, i));
                        }
                    }
                }
            }
            let ghost kids_before = kids@;
            kids.push(my_idx);
            proof {
                assert(kid_ok(nodes@, my_idx, parent, prefix@, lo));
                assert(nodes@[my_idx as int].name@ == (names@[c as int])@);
                assert forall|x: int| 0 <= x < c + 1 implies kid_ok(
                    nodes@,
                    #[trigger] kids@[x],
                    parent,
                    prefix@,
                    lo,
                ) && (nodes@[kids@[x] as int]).name@ == (names@[x])@ by {
                    if x < c {
                        assert(kids@[x] == kids@.drop_last()[x]);
                    }
                }
                reveal(all_attached_from);
                assert(forall|j: int| 0 <= j < my_idx as int ==> after_rec[j] == before_push[j]);
                assert(forall|j: int|
                    0 <= j < nodes@.len() && j != my_idx as int ==> nodes@[j] == after_rec[j]);
                Self::lemma_loop_attach(
                    before_push,
                    after_rec,
                    nodes@,
                    kids_before,
                    kids@,
                    inner_kids@,
                    lo,
                    my_idx,
                    new_prefix@,
                );
                assert(all_attached_from(nodes@, kids@, lo));
            }
            c = c + 1;
        }
        proof {
            assert forall|k: int|
                0 <= k < paths@.len() && dir_path_at((#[trigger] paths@[k])@, prefix@) implies exists|
                cc: int,
            |
                0 <= cc < kids@.len() && (#[trigger] nodes@[kids@[cc] as int]).name@ == first_segment(
                    paths@[k]@.skip(prefix@.len() as int),
                ) by {
                let seg = first_segment(paths@[k]@.skip(prefix@.len() as int));
                assert(has_name(names@, seg));
                let i = choose|i: int| 0 <= i < names@.len() && (#[trigger] names@[i])@ == seg;
                assert(nodes@[kids@[i] as int].name@ == seg);
            }
        }
        kids
    }

    /// Structural soundness, kept by every operation: the root is node 0
    /// and has no parent, every other node has one at a smaller index, no
    /// child index leaves the arena, and the focus is a node.
    pub open spec fn inv(&self) -> bool {
        let ns = self.nodes@;
        &&& ns.len() >= 1
        &&& ns[0].parent is None
        &&& ns[0].name@ == "Home"@
        &&& forall|i: int| 1 <= i < ns.len() ==> parent_below(ns, i)
        &&& forall|i: int| 1 <= i < ns.len() ==> attached(ns, i)
        &&& forall|i: int| 0 <= i < ns.len() ==> children_below(ns, i, ns.len() as int)
        &&& (self.focus as int) < ns.len()
    }

    /// The tree is the one this path list describes: the root covers the
    /// empty prefix and every node is locally sound for the list.
    pub open spec fn tracks(&self, paths: Seq<String>) -> bool {
        let ns = self.nodes@;
        &&& ns[0].prefix@ == Seq::<char>::empty()
        &&& forall|i: int| 0 <= i < ns.len() ==> #[trigger] node_ok(ns, i, paths)
    }

    /// Builds the whole tree for a flat list of library paths, focused on
    /// the root. Reading every leaf of the result gives back exactly the
    /// paths that were put in, and each node presents its entries sorted
    /// and its subdirectories deduplicated.
    pub fn build(paths: Vec<String>) -> (b: Browser)
        ensures
            b.inv(),
            b.tracks(paths@),
            b.focus == 0,
            forall|p: Seq<char>| #[trigger] tree_has_path(b.nodes@, p) <==> has_name(paths@, p),
            names_distinct(paths@) ==> forall|i: int|
                0 <= i < b.nodes@.len() ==> files_distinct((#[trigger] b.nodes@[i]).files@),
    {
        let root_prefix = String::new();
        let root_files = Self::files_with_prefix(root_prefix.as_str(), &paths);
        let mut nodes: Vec<Dir> = Vec::new();
        nodes.push(
            Dir {
                name: String::from_str("Home"),
                parent: None,
                children: Vec::new(),
                files: root_files,
                prefix: Ghost(Seq::empty()),
            },
        );
        let kids = Self::dirs_with_prefix(&mut nodes, 0, &root_prefix, &paths);
        let ghost after_rec = nodes@;
        let ghost kidsv = kids@;
        let ghost filled = Dir { children: kids, ..after_rec[0] };
        nodes[0].children = kids;
        proof {
            assert(nodes@ =~= after_rec.update(0, filled));
            lemma_segment_stable(after_rec, nodes@, 1, nodes@.len() as int, paths@);
            let ns = nodes@;
            assert(node_ok(ns, 0, paths@)) by {
                assert forall|cc: int| 0 <= cc < ns[0].children@.len() implies child_link_ok(
                    ns,
                    0,
                    cc,
                ) by {
                    assert(kid_ok(after_rec, kidsv[cc], 0, root_prefix@, 1));
                    assert(ns[kidsv[cc] as int] == after_rec[kidsv[cc] as int]);
                    assert(ns[kidsv[cc] as int].prefix@ =~= ns[0].prefix@ + ns[kidsv[cc] as int].name@
                        + seq!['/']);
                }
                assert forall|cc: int| 0 <= cc < ns[0].children@.len() implies name_entry_ok(
                    (#[trigger] ns[ns[0].children@[cc] as int]).name@,
                    ns[0].prefix@,
                    paths@,
                ) by {
                    assert(kid_ok(after_rec, kidsv[cc], 0, root_prefix@, 1));
                    assert(ns[kidsv[cc] as int] == after_rec[kidsv[cc] as int]);
                    assert(name_entry_ok(after_rec[kidsv[cc] as int].name@, root_prefix@, paths@));
                }
                assert forall|k: int|
                    0 <= k < paths@.len() && dir_path_at(
                        (#[trigger] paths@[k])@,
                        ns[0].prefix@,
                    ) implies exists|cc: int|
                    0 <= cc < ns[0].children@.len() && (#[trigger] ns[ns[0].children@[cc] as int]).name@
                        == first_segment(paths@[k]@.skip(ns[0].prefix@.len() as int)) by {
                    assert(dir_path_at(paths@[k]@, root_prefix@));
                    let cc = choose|cc: int|
                        0 <= cc < kidsv.len() && (#[trigger] after_rec[kidsv[cc] as int]).name@
                            == first_segment(paths@[k]@.skip(root_prefix@.len() as int));
                    assert(ns[ns[0].children@[cc] as int].name@ == first_segment(
                        paths@[k]@.skip(ns[0].prefix@.len() as int),
                    ));
                }
            }
        }
        let b = Browser { nodes, focus: 0 };
        proof {
            let ns = b.nodes@;
            assert forall|i: int| 0 <= i < ns.len() implies #[trigger] node_ok(ns, i, paths@) by {
                if i >= 1 {
                    assert(segment_ok(ns, 1, ns.len() as int, paths@));
                }
            }
            assert forall|i: int| 0 <= i < ns.len() implies children_below(
                ns,
                i,
                ns.len() as int,
            ) by {
                if i == 0 {
                    assert forall|cc: int| 0 <= cc < ns[0].children@.len() implies (#[trigger] ns[0].children@[cc])
                        < ns.len() as int by {
                        assert(kid_ok(after_rec, kidsv[cc], 0, root_prefix@, 1));
                    }
                } else {
                    assert(segment_ok(ns, 1, ns.len() as int, paths@));
                    assert(node_ok(ns, i, paths@));
                }
            }
            assert forall|i: int| 1 <= i < ns.len() implies parent_below(ns, i) by {
                assert(segment_ok(ns, 1, ns.len() as int, paths@));
                assert(node_ok(ns, i, paths@));
            }
            assert forall|x: int| 1 <= x < ns.len() implies attached(ns, x) by {
                reveal(all_attached_from);
                assert(kid_or_attached(after_rec, kidsv, x));
                if attached(after_rec, x) {
                    let (p, ac) = choose|p: usize, ac: int|
                        after_rec[x].parent == Some(p) && (p as int) < x && 0 <= ac < after_rec[p as int].children@.len()
                            && ((#[trigger] after_rec[p as int].children@[ac]) as int) == x;
                    assert(after_rec[0].children@.len() == 0);
                    assert(p as int != 0);
                    assert(ns[p as int] == after_rec[p as int]);
                    assert(ns[x] == after_rec[x]);
                    assert((ns[p as int].children@[ac] as int) == x);
                    assert(attached(ns, x));
                } else {
                    let ic = choose|ic: int|
                        0 <= ic < kidsv.len() && ((#[trigger] kidsv[ic]) as int) == x;
                    assert(kid_ok(after_rec, kidsv[ic], 0, root_prefix@, 1));
                    assert(ns[x] == after_rec[x]);
                    assert((ns[0].children@[ic] as int) == x);
                    assert(attached(ns, x));
                }
            }
            assert forall|p: Seq<char>| #[trigger] tree_has_path(ns, p) implies has_name(
                paths@,
                p,
            ) by {
                let (i, j) = choose|i: int, j: int|
                    0 <= i < ns.len() && 0 <= j < ns[i].files@.len() && (#[trigger] ns[i].files@[j]).path@
                        == p;
                assert(node_ok(ns, i, paths@));
                assert(file_entry_ok(ns[i].files@[j], ns[i].prefix@, paths@));
                let k = choose|k: int|
                    0 <= k < paths@.len() && (#[trigger] paths@[k])@ == ns[i].files@[j].path@;
                assert(has_name(paths@, p));
            }
            if names_distinct(paths@) {
                assert forall|i: int| 0 <= i < ns.len() implies files_distinct(
                    (#[trigger] ns[i]).files@,
                ) by {
                    assert(node_ok(ns, i, paths@));
                }
            }
            assert forall|p: Seq<char>| has_name(paths@, p) implies #[trigger] tree_has_path(
                ns,
                p,
            ) by {
                let k = choose|k: int| 0 <= k < paths@.len() && (#[trigger] paths@[k])@ == p;
                assert(ns[0].prefix@.is_prefix_of(paths@[k]@)) by {
                    assert(ns[0].prefix@ =~= paths@[k]@.subrange(0, 0));
                }
                lemma_path_covered(ns, paths@, 0, k);
            }
        }
        b
    }

    /// Moves the focus to another directory of the same tree.
    pub fn set_focus(&mut self, focus: usize)
        requires
            (focus as int) < old(self).nodes@.len(),
        ensures
            final(self).nodes == old(self).nodes,
            final(self).focus == focus,
    {
        self.focus = focus;
    }

    /// The breadcrumb of the focused directory: the (name, node) pairs of
    /// the chain from the root down to the focus, each node the parent of
    /// the next, for rendering ascent links.
    pub fn build_breadcrumb(&self) -> (r: Vec<(String, usize)>)
        requires
            self.inv(),
        ensures
            r@.len() >= 1,
            (r@[0].1 as int) == 0,
            r@[r@.len() - 1].1 == self.focus,
            forall|j: int|
                0 <= j < r@.len() ==> ((#[trigger] r@[j]).1 as int) < self.nodes@.len() && r@[j].0@
                    == self.nodes@[r@[j].1 as int].name@,
            forall|j: int|
                1 <= j < r@.len() ==> self.nodes@[(#[trigger] r@[j]).1 as int].parent == Some(
                    r@[j - 1].1,
                ),
    {
        let mut up: Vec<(String, usize)> = Vec::new();
        let mut cur: usize = self.focus;
        let mut done: bool = false;
        while !done
            invariant
                self.inv(),
                (cur as int) < self.nodes@.len(),
                up@.len() == 0 ==> cur == self.focus,
                up@.len() > 0 ==> up@[0].1 == self.focus,
                forall|j: int|
                    0 <= j < up@.len() ==> ((#[trigger] up@[j]).1 as int) < self.nodes@.len()
                        && up@[j].0@ == self.nodes@[up@[j].1 as int].name@,
                forall|j: int|
                    0 <= j < up@.len() - 1 ==> self.nodes@[(#[trigger] up@[j]).1 as int].parent
                        == Some(up@[j + 1].1),
                !done && up@.len() > 0 ==> self.nodes@[up@[up@.len() - 1].1 as int].parent == Some(
                    cur,
                ) && (cur as int) < up@[up@.len() - 1].1 as int,
                done ==> up@.len() > 0 && (up@[up@.len() - 1].1 as int) == 0,
            decreases (if done { 0int } else { cur as int + 1 }),
        {
            let name = self.nodes[cur].name.clone();
            let ghost before = up@;
            up.push((name, cur));
            let par = self.nodes[cur].parent;
            match par {
                Some(p) => {
                    proof {
                        if cur as int == 0 {
                            assert(self.nodes@[0].parent is None);
                        }
                        assert(parent_below(self.nodes@, cur as int));
                    }
                    cur = p;
                },
                None => {
                    proof {
                        if cur as int >= 1 {
                            assert(parent_below(self.nodes@, cur as int));
                        }
                    }
                    done = true;
                },
            }
        }
        let mut r: Vec<(String, usize)> = Vec::new();
        let mut t: usize = up.len();
        while t > 0
            invariant
                t <= up@.len(),
                r@.len() == up@.len() - t,
                forall|j: int|
                    0 <= j < r@.len() ==> (#[trigger] r@[j]).1 == up@[up@.len() - 1 - j].1
                        && r@[j].0@ == up@[up@.len() - 1 - j].0@,
            decreases t,
        {
            t = t - 1;
            let pair = &up[t];
            r.push((pair.0.clone(), pair.1));
        }
        proof {
            let l = up@.len() as int;
            assert(r@[0].1 == up@[l - 1].1);
            assert(r@[r@.len() - 1].1 == up@[0].1);
            assert forall|j: int|
                1 <= j < r@.len() implies self.nodes@[(#[trigger] r@[j]).1 as int].parent == Some(
                r@[j - 1].1,
            ) by {
                let x = l - 1 - j;
                assert(r@[j].1 == up@[x].1);
                assert(self.nodes@[up@[x].1 as int].parent == Some(up@[x + 1].1));
                assert(r@[j - 1].1 == up@[x + 1].1);
            }
        }
        r
    }
}


/// The first segment never holds a separator.
proof fn lemma_first_segment_no_slash(s: Seq<char>)
    ensures
        no_slash(first_segment(s)),
    decreases s.len(),
{
    if s.len() != 0 && s[0] != '/' {
        lemma_first_segment_no_slash(s.skip(1));
        assert(forall|k: int|
            1 <= k < first_segment(s).len() ==> first_segment(s)[k] == first_segment(s.skip(1))[k
                - 1]);
    }
}

/// Two shaped prefixes that both lead directly to the same file coincide.
proof fn lemma_file_prefix_unique(p: Seq<char>, pre1: Seq<char>, pre2: Seq<char>)
    requires
        file_at(p, pre1),
        file_at(p, pre2),
        prefix_shaped(pre1),
        prefix_shaped(pre2),
    ensures
        pre1 == pre2,
{
    assert(forall|i: int| 0 <= i < pre1.len() ==> pre1[i] == p[i]);
    assert(forall|i: int| 0 <= i < pre2.len() ==> pre2[i] == p[i]);
    if pre1.len() < pre2.len() {
        assert(pre2[pre2.len() - 1] == '/');
        assert(p[pre2.len() - 1] == '/');
        assert(p.skip(pre1.len() as int)[pre2.len() - 1 - pre1.len()] == '/');
        assert(false);
    }
    if pre2.len() < pre1.len() {
        assert(pre1[pre1.len() - 1] == '/');
        assert(p[pre1.len() - 1] == '/');
        assert(p.skip(pre2.len() as int)[pre1.len() - 1 - pre2.len()] == '/');
        assert(false);
    }
    assert(pre1 =~= pre2);
}

/// A shaped prefix splits into parent prefix, slash-free segment name and
/// a closing separator in only one way.
proof fn lemma_prefix_decomposition(a: Seq<char>, n1: Seq<char>, b: Seq<char>, n2: Seq<char>)
    requires
        a + n1 + seq!['/'] == b + n2 + seq!['/'],
        prefix_shaped(a),
        prefix_shaped(b),
        no_slash(n1),
        no_slash(n2),
    ensures
        a == b,
        n1 == n2,
{
    let s = a + n1 + seq!['/'];
    assert(s.len() == a.len() + n1.len() + 1);
    assert(s.len() == b.len() + n2.len() + 1);
    assert(forall|i: int| 0 <= i < a.len() ==> s[i] == a[i]);
    assert(forall|i: int| a.len() <= i < a.len() + n1.len() ==> s[i] == n1[i - a.len()]);
    assert(forall|i: int| 0 <= i < b.len() ==> s[i] == b[i]);
    assert(forall|i: int| b.len() <= i < b.len() + n2.len() ==> s[i] == n2[i - b.len()]);
    if a.len() < b.len() {
        assert(b[b.len() - 1] == '/');
        assert(s[b.len() - 1] == '/');
        if b.len() - 1 < a.len() + n1.len() {
            assert(n1[b.len() - 1 - a.len()] == '/');
        }
        assert(false);
    }
    if b.len() < a.len() {
        assert(a[a.len() - 1] == '/');
        assert(s[a.len() - 1] == '/');
        if a.len() - 1 < b.len() + n2.len() {
            assert(n2[a.len() - 1 - b.len()] == '/');
        }
        assert(false);
    }
    assert(a =~= b);
    assert forall|i: int| 0 <= i < n1.len() implies n1[i] == n2[i] by {
        assert(s[a.len() + i] == n1[i]);
        assert(s[b.len() + i] == n2[i]);
    }
    assert(n1 =~= n2);
}

/// What upward reasoning needs of one non-root node: it hangs off its
/// parent, its prefix extends the parent's shaped prefix by its own
/// slash-free name and a separator, and no sibling shares its name.
spec fn link_facts(nodes: Seq<Dir>, x: int) -> bool {
    exists|p: usize, c: int|
        {
            &&& nodes[x].parent == Some(p)
            &&& (p as int) < x
            &&& 0 <= c < nodes[p as int].children@.len()
            &&& (((#[trigger] nodes[p as int].children@[c]) as int) == x)
            &&& nodes[x].prefix@ == nodes[p as int].prefix@ + nodes[x].name@ + seq!['/']
            &&& prefix_shaped(nodes[p as int].prefix@)
            &&& no_slash(nodes[x].name@)
            &&& forall|cb: int|
                0 <= cb < nodes[p as int].children@.len() && cb != c ==> (
                #[trigger] nodes[nodes[p as int].children@[cb] as int]).name@ != nodes[x].name@
        }
}

/// In a tree whose non-root nodes all hang soundly off their parents, a
/// prefix names at most one node.
proof fn lemma_prefix_unique(nodes: Seq<Dir>, i1: int, i2: int)
    requires
        nodes.len() >= 1,
        nodes[0].prefix@ == Seq::<char>::empty(),
        forall|j: int| 1 <= j < nodes.len() ==> #[trigger] link_facts(nodes, j),
        0 <= i1 < nodes.len(),
        0 <= i2 < nodes.len(),
        nodes[i1].prefix@ == nodes[i2].prefix@,
    ensures
        i1 == i2,
    decreases i1 + i2,
{
    if i1 == 0 && i2 == 0 {
    } else if i1 == 0 || i2 == 0 {
        let z = if i1 == 0 {
            i2
        } else {
            i1
        };
        assert(link_facts(nodes, z));
        assert(nodes[z].prefix@.len() > 0);
        assert(false);
    } else {
        assert(link_facts(nodes, i1));
        assert(link_facts(nodes, i2));
        let (p1, c1) = choose|p: usize, c: int|
            {
                &&& nodes[i1].parent == Some(p)
                &&& (p as int) < i1
                &&& 0 <= c < nodes[p as int].children@.len()
                &&& (((#[trigger] nodes[p as int].children@[c]) as int) == i1)
                &&& nodes[i1].prefix@ == nodes[p as int].prefix@ + nodes[i1].name@ + seq!['/']
                &&& prefix_shaped(nodes[p as int].prefix@)
                &&& no_slash(nodes[i1].name@)
                &&& forall|cb: int|
                    0 <= cb < nodes[p as int].children@.len() && cb != c ==> (
                    #[trigger] nodes[nodes[p as int].children@[cb] as int]).name@ != nodes[i1].name@
            };
        let (p2, c2) = choose|p: usize, c: int|
            {
                &&& nodes[i2].parent == Some(p)
                &&& (p as int) < i2
                &&& 0 <= c < nodes[p as int].children@.len()
                &&& (((#[trigger] nodes[p as int].children@[c]) as int) == i2)
                &&& nodes[i2].prefix@ == nodes[p as int].prefix@ + nodes[i2].name@ + seq!['/']
                &&& prefix_shaped(nodes[p as int].prefix@)
                &&& no_slash(nodes[i2].name@)
                &&& forall|cb: int|
                    0 <= cb < nodes[p as int].children@.len() && cb != c ==> (
                    #[trigger] nodes[nodes[p as int].children@[cb] as int]).name@ != nodes[i2].name@
            };
        lemma_prefix_decomposition(
            nodes[p1 as int].prefix@,
            nodes[i1].name@,
            nodes[p2 as int].prefix@,
            nodes[i2].name@,
        );
        lemma_prefix_unique(nodes, p1 as int, p2 as int);
        assert(p1 == p2);
        if c1 != c2 {
            assert(nodes[nodes[p1 as int].children@[c2] as int].name@ != nodes[i1].name@);
            assert(false);
        }
    }
}

/// Every path stands at exactly one directory of a built tree: the leaves
/// of two different nodes never read back the same path, so each path has
/// one leaf position, fixed by splitting it at its separators.
pub proof fn lemma_leaf_node_unique(
    b: Browser,
    paths: Seq<String>,
    i1: int,
    j1: int,
    i2: int,
    j2: int,
)
    requires
        b.inv(),
        b.tracks(paths),
        0 <= i1 < b.nodes@.len(),
        0 <= j1 < b.nodes@[i1].files@.len(),
        0 <= i2 < b.nodes@.len(),
        0 <= j2 < b.nodes@[i2].files@.len(),
        b.nodes@[i1].files@[j1].path@ == b.nodes@[i2].files@[j2].path@,
    ensures
        i1 == i2,
{
    let ns = b.nodes@;
    assert forall|x: int| 1 <= x < ns.len() implies #[trigger] link_facts(ns, x) by {
        assert(attached(ns, x));
        let (p, c) = choose|p: usize, c: int|
            ns[x].parent == Some(p) && (p as int) < x && 0 <= c < ns[p as int].children@.len()
                && ((#[trigger] ns[p as int].children@[c]) as int) == x;
        assert(node_ok(ns, p as int, paths));
        assert(child_link_ok(ns, p as int, c));
        assert(name_entry_ok(ns[ns[p as int].children@[c] as int].name@, ns[p as int].prefix@, paths));
        let k = choose|k: int|
            0 <= k < paths.len() && dir_path_at((#[trigger] paths[k])@, ns[p as int].prefix@)
                && ns[x].name@ == first_segment(paths[k]@.skip(ns[p as int].prefix@.len() as int));
        lemma_first_segment_no_slash(paths[k]@.skip(ns[p as int].prefix@.len() as int));
        assert forall|cb: int|
            0 <= cb < ns[p as int].children@.len() && cb != c implies (
            #[trigger] ns[ns[p as int].children@[cb] as int]).name@ != ns[x].name@ by {
            if cb < c {
                assert(ns[ns[p as int].children@[cb] as int].name@ != ns[ns[p as int].children@[c as int] as int].name@);
            } else {
                assert(ns[ns[p as int].children@[c as int] as int].name@ != ns[ns[p as int].children@[cb] as int].name@);
            }
        }
        assert(prefix_shaped(ns[p as int].prefix@));
    };
    assert(node_ok(ns, i1, paths));
    assert(node_ok(ns, i2, paths));
    assert(file_entry_ok(ns[i1].files@[j1], ns[i1].prefix@, paths));
    assert(file_entry_ok(ns[i2].files@[j2], ns[i2].prefix@, paths));
    lemma_file_prefix_unique(ns[i1].files@[j1].path@, ns[i1].prefix@, ns[i2].prefix@);
    lemma_prefix_unique(ns, i1, i2);
}

} // verus!
