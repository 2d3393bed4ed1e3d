//! Folding in place gives what a full flattening gives.
//!
//! The browser opens and closes folders by splicing rows. The laws here say that
//! the spliced rows are those that the whole tree has under the new set of open
//! folders, that jump numbers are sequential, and that no row identifier is
//! repeated.

use crate::interactive::tree::{
    child_at, closed_rows, display_position, extended, folder, folder_paths, folder_row, leaf,
    leaf_key, lines_among, node_at_path, node_rows, node_under, numbered, opened_rows,
    path_of_id, rows_in, run_end, segments, slashed, tree_of, visible, with_child, woven,
    LineView, NodeView, RowView,
};
use crate::text::{
    joined, lowercase, next_of, next_of_bounds, pieces, text_before, text_before_asymmetric,
    text_before_total, text_before_transitive,
};
use vstd::prelude::*;

verus! {

// ---------------------------------------------------------------------------
// Paths and segments
// ---------------------------------------------------------------------------

/// Has `s` no slash in it?
pub open spec fn slash_free(s: Seq<char>) -> bool {
    forall|i: int| 0 <= i < s.len() ==> #[trigger] s[i] != '/'
}

/// Are these segments of a path: not empty, and without slashes?
pub open spec fn are_segments(segs: Seq<Seq<char>>) -> bool {
    forall|i: int| 0 <= i < segs.len() ==> (#[trigger] segs[i]).len() > 0 && slash_free(segs[i])
}

/// The path of the given segments.
pub open spec fn path_of(segs: Seq<Seq<char>>) -> Seq<char> {
    joined(segs, seq!['/'])
}

proof fn pieces_of_extended(x: Seq<char>, s: Seq<char>, i: int)
    requires
        0 <= i <= x.len(),
        slash_free(s),
    ensures
        pieces(x + seq!['/'] + s, '/', i) == pieces(x, '/', i).push(s),
    decreases x.len() - i,
{
    let big = x + seq!['/'] + s;
    next_of_bounds(x, '/', i);
    next_of_bounds(big, '/', i);
    let j = next_of(x, '/', i);
    let b = next_of(big, '/', i);
    assert(big[x.len() as int] == '/');
    assert forall|m: int| i <= m < x.len() implies big[m] == x[m] by {}
    assert(j == b) by {
        if b < j {
            assert(x[b] != '/');
        }
        if j < b {
            assert(big[j] != '/');
        }
    }
    if j < x.len() {
        pieces_of_extended(x, s, j + 1);
        assert(big.subrange(i, j) =~= x.subrange(i, j));
        assert(pieces(big, '/', i) =~= pieces(x, '/', i).push(s));
    } else {
        let from = (x.len() + 1) as int;
        next_of_bounds(big, '/', from);
        assert(next_of(big, '/', from) == big.len()) by {
            let e = next_of(big, '/', from);
            if e < big.len() {
                assert(big[e] == s[e - from]);
            }
        }
        assert(big.subrange(from, big.len() as int) =~= s);
        assert(pieces(big, '/', from) =~= seq![s]);
        assert(big.subrange(i, j) =~= x.subrange(i, x.len() as int));
        assert(pieces(x, '/', i) =~= seq![x.subrange(i, x.len() as int)]);
        assert(pieces(big, '/', i) =~= pieces(x, '/', i).push(s));
    }
}

/// A path splits into the segments it is made of.
proof fn path_splits(segs: Seq<Seq<char>>)
    requires
        segs.len() > 0,
        are_segments(segs),
    ensures
        pieces(path_of(segs), '/', 0) == segs,
    decreases segs.len(),
{
    if segs.len() == 1 {
        let s = segs[0];
        next_of_bounds(s, '/', 0);
        assert(s.subrange(0, s.len() as int) =~= s);
        assert(pieces(s, '/', 0) =~= segs);
    } else {
        let head = segs.drop_last();
        assert forall|i: int| 0 <= i < head.len() implies (#[trigger] head[i]).len() > 0
            && slash_free(head[i]) by {
            assert(head[i] == segs[i]);
        }
        path_splits(head);
        pieces_of_extended(path_of(head), segs.last(), 0);
        assert(head.push(segs.last()) =~= segs);
    }
}

/// Different segments make different paths.
proof fn paths_differ(a: Seq<Seq<char>>, b: Seq<Seq<char>>)
    requires
        a.len() > 0,
        b.len() > 0,
        are_segments(a),
        are_segments(b),
        path_of(a) == path_of(b),
    ensures
        a == b,
{
    path_splits(a);
    path_splits(b);
}

pub(crate) proof fn path_extends(at: Seq<Seq<char>>, seg: Seq<char>)
    requires
        are_segments(at),
    ensures
        path_of(at.push(seg)) == extended(path_of(at), seg),
        at.len() > 0 ==> path_of(at).len() > 0,
        at.len() == 0 ==> path_of(at).len() == 0,
{
    assert(at.push(seg).drop_last() =~= at);
    if at.len() > 0 {
        assert(at.last().len() > 0);
        if at.len() > 1 {
            assert(path_of(at).len() >= at.last().len());
        }
        assert(path_of(at) + seq!['/'] + seg =~= path_of(at).push('/') + seg);
    }
}

// ---------------------------------------------------------------------------
// Well-formed trees
// ---------------------------------------------------------------------------

/// Do the children of a node have distinct segments?
pub open spec fn distinct_children(n: NodeView) -> bool {
    forall|i: int, j: int|
        0 <= i < j < n.children.len() ==> (#[trigger] n.children[i]).seg != (
        #[trigger] n.children[j]).seg
}

/// Is the tree under a node that stands at `at` well formed: are children told
/// apart by their segments, and does the path of each folder follow from where it
/// stands?
pub open spec fn well_formed(n: NodeView, at: Seq<Seq<char>>) -> bool
    decreases n,
{
    &&& distinct_children(n)
    &&& forall|i: int|
        #![trigger n.children[i]]
        0 <= i < n.children.len() && n.children[i].line is None ==> {
            let c = n.children[i];
            &&& c.seg.len() > 0 && slash_free(c.seg)
            &&& c.path == path_of(at.push(c.seg))
            &&& well_formed(c, at.push(c.seg))
        }
}

pub(crate) proof fn child_at_bounds(children: Seq<NodeView>, seg: Seq<char>, k: int)
    requires
        0 <= k <= children.len(),
    ensures
        k <= child_at(children, seg, k) <= children.len(),
        child_at(children, seg, k) < children.len() ==> children[child_at(children, seg, k)].seg
            == seg,
        forall|j: int| k <= j < child_at(children, seg, k) ==> (#[trigger] children[j]).seg != seg,
    decreases children.len() - k,
{
    if k < children.len() && children[k].seg != seg {
        child_at_bounds(children, seg, k + 1);
    }
}

pub(crate) proof fn display_position_bounds(children: Seq<NodeView>, seg: Seq<char>, k: int)
    requires
        0 <= k,
    ensures
        0 <= display_position(children, seg, k) <= k,
    decreases k,
{
    if k > 0 {
        display_position_bounds(children, seg, k - 1);
    }
}

/// Adding a child with a new segment keeps a node well formed, if the child is.
proof fn with_child_is_well_formed(n: NodeView, at: Seq<Seq<char>>, c: NodeView)
    requires
        well_formed(n, at),
        child_at(n.children, c.seg, 0) == n.children.len(),
        c.line is None ==> c.seg.len() > 0 && slash_free(c.seg) && c.path == path_of(at.push(c.seg))
            && well_formed(c, at.push(c.seg)),
    ensures
        well_formed(NodeView { children: with_child(n.children, c), ..n }, at),
{
    let p = display_position(n.children, c.seg, n.children.len() as int);
    display_position_bounds(n.children, c.seg, n.children.len() as int);
    child_at_bounds(n.children, c.seg, 0);
    let m = NodeView { children: with_child(n.children, c), ..n };
    assert forall|i: int, j: int| 0 <= i < j < m.children.len() implies (
    #[trigger] m.children[i]).seg != (#[trigger] m.children[j]).seg by {
        if i < p {
            assert(m.children[i] == n.children[i]);
        } else if i > p {
            assert(m.children[i] == n.children[i - 1]);
        }
        if j < p {
            assert(m.children[j] == n.children[j]);
        } else if j > p {
            assert(m.children[j] == n.children[j - 1]);
        }
    }
    assert forall|i: int|
        #![trigger m.children[i]]
        0 <= i < m.children.len() && m.children[i].line is None implies {
        let c = m.children[i];
        &&& c.seg.len() > 0 && slash_free(c.seg)
        &&& c.path == path_of(at.push(c.seg))
        &&& well_formed(c, at.push(c.seg))
    } by {
        if i < p {
            assert(m.children[i] == n.children[i]);
        } else if i > p {
            assert(m.children[i] == n.children[i - 1]);
        }
    }
}

/// Replacing a child by one with the same segment keeps a node well formed, if the
/// child is.
proof fn with_update_is_well_formed(n: NodeView, at: Seq<Seq<char>>, k: int, c: NodeView)
    requires
        well_formed(n, at),
        0 <= k < n.children.len(),
        c.seg == n.children[k].seg,
        c.line is None ==> c.seg.len() > 0 && slash_free(c.seg) && c.path == path_of(at.push(c.seg))
            && well_formed(c, at.push(c.seg)),
    ensures
        well_formed(NodeView { children: n.children.update(k, c), ..n }, at),
{
    let m = NodeView { children: n.children.update(k, c), ..n };
    assert forall|i: int, j: int| 0 <= i < j < m.children.len() implies (
    #[trigger] m.children[i]).seg != (#[trigger] m.children[j]).seg by {
        assert(m.children[i].seg == n.children[i].seg);
        assert(m.children[j].seg == n.children[j].seg);
    }
    assert forall|i: int|
        #![trigger m.children[i]]
        0 <= i < m.children.len() && m.children[i].line is None implies {
        let c = m.children[i];
        &&& c.seg.len() > 0 && slash_free(c.seg)
        &&& c.path == path_of(at.push(c.seg))
        &&& well_formed(c, at.push(c.seg))
    } by {
        if i != k {
            assert(m.children[i] == n.children[i]);
        }
    }
}

proof fn woven_is_well_formed(
    n: NodeView,
    at: Seq<Seq<char>>,
    segs: Seq<Seq<char>>,
    key: Seq<char>,
    line: LineView,
)
    requires
        well_formed(n, at),
        are_segments(at),
        are_segments(segs),
    ensures
        well_formed(woven(n, segs, path_of(at), key, line), at),
    decreases segs.len(),
{
    let path = path_of(at);
    if segs.len() == 0 {
        let k = child_at(n.children, key, 0);
        child_at_bounds(n.children, key, 0);
        if k < n.children.len() {
            with_update_is_well_formed(
                n,
                at,
                k,
                NodeView { line: Some(line), ..n.children[k] },
            );
        } else {
            with_child_is_well_formed(n, at, leaf(path, key, line));
        }
    } else {
        let seg = segs[0];
        let inner = extended(path, seg);
        let k = child_at(n.children, seg, 0);
        child_at_bounds(n.children, seg, 0);
        path_extends(at, seg);
        let deeper = at.push(seg);
        assert(are_segments(deeper));
        assert forall|i: int| 0 <= i < segs.skip(1).len() implies (
        #[trigger] segs.skip(1)[i]).len() > 0 && slash_free(segs.skip(1)[i]) by {
            assert(segs.skip(1)[i] == segs[i + 1]);
        }
        if k < n.children.len() {
            let c = n.children[k];
            if c.line is None {
                woven_is_well_formed(c, deeper, segs.skip(1), key, line);
            }
            with_update_is_well_formed(n, at, k, woven(c, segs.skip(1), inner, key, line));
        } else {
            let c = folder(seg, inner);
            woven_is_well_formed(c, deeper, segs.skip(1), key, line);
            with_child_is_well_formed(n, at, woven(c, segs.skip(1), inner, key, line));
        }
    }
}

proof fn pieces_are_slash_free(s: Seq<char>, i: int)
    requires
        0 <= i <= s.len(),
    ensures
        forall|k: int|
            0 <= k < pieces(s, '/', i).len() ==> slash_free(#[trigger] pieces(s, '/', i)[k]),
    decreases s.len() - i,
{
    next_of_bounds(s, '/', i);
    let j = next_of(s, '/', i);
    let all = pieces(s, '/', i);
    if j < s.len() {
        pieces_are_slash_free(s, j + 1);
        let rest = pieces(s, '/', j + 1);
        assert forall|k: int| 0 <= k < all.len() implies slash_free(#[trigger] all[k]) by {
            if k > 0 {
                assert(all[k] == rest[k - 1]);
            }
        }
    }
}

pub(crate) proof fn segments_are_segments(file: Seq<char>)
    ensures
        are_segments(segments(file)),
{
    let all = pieces(slashed(file), '/', 0);
    let pick = |s: Seq<char>| s.len() > 0;
    pieces_are_slash_free(slashed(file), 0);
    let segs = segments(file);
    broadcast use vstd::seq_lib::group_filter_ensures;
    assert forall|i: int| 0 <= i < segs.len() implies (#[trigger] segs[i]).len() > 0 && slash_free(
        segs[i],
    ) by {
        assert(all.filter(pick).contains(segs[i]));
        assert(pick(segs[i]));
        all.lemma_filter_contains_rev(pick, segs[i]);
    }
}

/// Every tree that is built from lines is well formed.
pub proof fn built_trees_are_well_formed(lines: Seq<LineView>, k: int)
    ensures
        well_formed(tree_of(lines, k), Seq::empty()),
    decreases k,
{
    if k > 0 {
        built_trees_are_well_formed(lines, k - 1);
        let l = lines[k - 1];
        segments_are_segments(l.file);
        assert(path_of(Seq::empty()) =~= Seq::<char>::empty());
        woven_is_well_formed(
            tree_of(lines, k - 1),
            Seq::empty(),
            segments(l.file),
            leaf_key(l.line as nat, (k - 1) as nat),
            l,
        );
    }
}

// ---------------------------------------------------------------------------
// Opening and closing a folder
// ---------------------------------------------------------------------------

pub(crate) proof fn rows_in_step(n: NodeView, depth: int, expanded: Set<Seq<char>>, k: int)
    requires
        0 < k <= n.children.len(),
    ensures
        rows_in(n, depth, expanded, k) == rows_in(n, depth, expanded, k - 1) + node_rows(
            n.children[k - 1],
            depth,
            expanded,
        ),
{
}

pub(crate) proof fn folder_paths_step(n: NodeView, k: int)
    requires
        0 < k <= n.children.len(),
    ensures
        ({
            let c = n.children[k - 1];
            folder_paths(n, k) == (if c.line is None {
                folder_paths(n, k - 1).insert(c.path).union(
                    folder_paths(c, c.children.len() as int),
                )
            } else {
                folder_paths(n, k - 1)
            })
        }),
{
}

/// Sets of open folders that agree on the folders of a tree give the same rows.
proof fn rows_depend_on_folders(
    n: NodeView,
    depth: int,
    a: Set<Seq<char>>,
    b: Set<Seq<char>>,
    k: int,
)
    requires
        0 <= k <= n.children.len(),
        forall|p: Seq<char>| #[trigger]
            folder_paths(n, k).contains(p) ==> a.contains(p) == b.contains(p),
    ensures
        rows_in(n, depth, a, k) == rows_in(n, depth, b, k),
    decreases n, k, 1int,
{
    if k > 0 {
        let c = n.children[k - 1];
        folder_paths_step(n, k);
        rows_in_step(n, depth, a, k);
        rows_in_step(n, depth, b, k);
        assert forall|p: Seq<char>| #[trigger] folder_paths(n, k - 1).contains(p) implies a.contains(
            p,
        ) == b.contains(p) by {
            assert(folder_paths(n, k).contains(p));
        }
        rows_depend_on_folders(n, depth, a, b, k - 1);
        if c.line is None {
            assert forall|p: Seq<char>| #[trigger]
                folder_paths(c, c.children.len() as int).contains(p) implies a.contains(p)
                == b.contains(p) by {
                assert(folder_paths(n, k).contains(p));
            }
            assert(folder_paths(n, k).contains(c.path));
        }
        node_rows_depend_on_folders(n, depth, a, b, k);
    }
}

proof fn node_rows_depend_on_folders(
    n: NodeView,
    depth: int,
    a: Set<Seq<char>>,
    b: Set<Seq<char>>,
    k: int,
)
    requires
        0 < k <= n.children.len(),
        n.children[k - 1].line is None ==> a.contains(n.children[k - 1].path) == b.contains(
            n.children[k - 1].path,
        ),
        n.children[k - 1].line is None ==> forall|p: Seq<char>| #[trigger]
            folder_paths(n.children[k - 1], n.children[k - 1].children.len() as int).contains(p)
                ==> a.contains(p) == b.contains(p),
    ensures
        node_rows(n.children[k - 1], depth, a) == node_rows(n.children[k - 1], depth, b),
    decreases n, k, 0int,
{
    let c = n.children[k - 1];
    if c.line is None {
        rows_depend_on_folders(c, depth + 1, a, b, c.children.len() as int);
    }
}

/// Every folder of a well-formed tree stands where its path says, under one of the
/// children considered.
proof fn folder_is_under_child(n: NodeView, at: Seq<Seq<char>>, k: int, p: Seq<char>) -> (q: Seq<
    Seq<char>,
>)
    requires
        well_formed(n, at),
        are_segments(at),
        0 <= k <= n.children.len(),
        folder_paths(n, k).contains(p),
    ensures
        q.len() > 0,
        are_segments(q),
        p == path_of(at + q),
        exists|j: int| 0 <= j < k && (#[trigger] n.children[j]).seg == q[0],
    decreases n, k,
{
    if k > 0 {
        folder_paths_step(n, k);
        let c = n.children[k - 1];
        if folder_paths(n, k - 1).contains(p) {
            let q = folder_is_under_child(n, at, k - 1, p);
            let j = choose|j: int| 0 <= j < k - 1 && (#[trigger] n.children[j]).seg == q[0];
            assert(n.children[j].seg == q[0]);
            q
        } else if c.path == p {
            let q = seq![c.seg];
            assert(at + q =~= at.push(c.seg));
            assert(n.children[k - 1].seg == q[0]);
            q
        } else {
            let deeper = at.push(c.seg);
            assert(are_segments(deeper));
            let rest = folder_is_under_child(c, deeper, c.children.len() as int, p);
            let q = seq![c.seg] + rest;
            assert forall|i: int| 0 <= i < q.len() implies (#[trigger] q[i]).len() > 0 && slash_free(
                q[i],
            ) by {
                if i > 0 {
                    assert(q[i] == rest[i - 1]);
                }
            }
            assert(at + q =~= deeper + rest);
            assert(n.children[k - 1].seg == q[0]);
            q
        }
    } else {
        Seq::empty()
    }
}

proof fn are_segments_add(a: Seq<Seq<char>>, b: Seq<Seq<char>>)
    requires
        are_segments(a),
        are_segments(b),
    ensures
        are_segments(a + b),
{
    assert forall|i: int| 0 <= i < (a + b).len() implies (#[trigger] (a + b)[i]).len() > 0
        && slash_free((a + b)[i]) by {
        if i < a.len() {
            assert((a + b)[i] == a[i]);
        } else {
            assert((a + b)[i] == b[i - a.len()]);
        }
    }
}

/// A path leads under one child only.
proof fn same_first_segment(
    at: Seq<Seq<char>>,
    a: Seq<Seq<char>>,
    b: Seq<Seq<char>>,
)
    requires
        are_segments(at),
        are_segments(a),
        are_segments(b),
        a.len() > 0,
        b.len() > 0,
        path_of(at + a) == path_of(at + b),
    ensures
        a == b,
{
    are_segments_add(at, a);
    are_segments_add(at, b);
    paths_differ(at + a, at + b);
    assert((at + a).skip(at.len() as int) =~= a);
    assert((at + b).skip(at.len() as int) =~= b);
}

proof fn node_under_skip(n: NodeView, segs: Seq<Seq<char>>, i: int)
    requires
        0 <= i <= segs.len(),
    ensures
        node_under(n, segs, i) == node_under(n, segs.skip(i), 0),
    decreases segs.len() - i,
{
    if i < segs.len() {
        let k = child_at(n.children, segs[i], 0);
        assert(segs.skip(i)[0] == segs[i]);
        if k < n.children.len() {
            node_under_skip(n.children[k], segs, i + 1);
            if i + 1 <= segs.len() {
                node_under_skip(n.children[k], segs.skip(i), 1);
                assert(segs.skip(i).skip(1) =~= segs.skip(i + 1));
            }
        }
    }
}

/// Rows lie no higher than where they start.
proof fn rows_are_deep(n: NodeView, depth: int, expanded: Set<Seq<char>>, k: int)
    requires
        0 <= k <= n.children.len(),
        0 <= depth <= usize::MAX,
    ensures
        forall|i: int|
            0 <= i < rows_in(n, depth, expanded, k).len() ==> (#[trigger] rows_in(
                n,
                depth,
                expanded,
                k,
            )[i]).depth >= depth,
    decreases n, k, 1int,
{
    if k > 0 {
        rows_are_deep(n, depth, expanded, k - 1);
        rows_in_step(n, depth, expanded, k);
        node_rows_are_deep(n, depth, expanded, k);
        let before = rows_in(n, depth, expanded, k - 1);
        let more = node_rows(n.children[k - 1], depth, expanded);
        let all = rows_in(n, depth, expanded, k);
        assert forall|i: int| 0 <= i < all.len() implies (#[trigger] all[i]).depth >= depth by {
            if i < before.len() {
                assert(all[i] == before[i]);
            } else {
                assert(all[i] == more[i - before.len()]);
            }
        }
    }
}

pub(crate) proof fn node_rows_are_deep(n: NodeView, depth: int, expanded: Set<Seq<char>>, k: int)
    requires
        0 < k <= n.children.len(),
        0 <= depth <= usize::MAX,
    ensures
        ({
            let rows = node_rows(n.children[k - 1], depth, expanded);
            &&& rows.len() > 0
            &&& rows[0].depth == depth
            &&& forall|i: int| 0 < i < rows.len() ==> (#[trigger] rows[i]).depth > depth
        }),
    decreases n, k, 0int,
{
    let c = n.children[k - 1];
    let rows = node_rows(c, depth, expanded);
    if c.line is None && expanded.contains(c.path) && depth < usize::MAX {
        let inner = rows_in(c, depth + 1, expanded, c.children.len() as int);
        rows_are_deep(c, depth + 1, expanded, c.children.len() as int);
        assert forall|i: int| 0 < i < rows.len() implies (#[trigger] rows[i]).depth > depth by {
            assert(rows[i] == inner[i - 1]);
        }
    }
}

/// The rows of what is in an open folder at `depth`.
spec fn inside(c: NodeView, depth: int, expanded: Set<Seq<char>>) -> Seq<RowView> {
    if depth < usize::MAX {
        rows_in(c, depth + 1, expanded, c.children.len() as int)
    } else {
        Seq::empty()
    }
}

/// What toggling the folder in row `i` makes of rows: `c` is the folder, which
/// stands at `q` under `n`, `a` and `b` the open folders before and after.
spec fn toggles(
    rows: Seq<RowView>,
    toggled: Seq<RowView>,
    i: int,
    c: NodeView,
    a: Set<Seq<char>>,
    b: Set<Seq<char>>,
) -> bool {
    let depth = rows[i].depth as int;
    &&& c.line is None
    &&& rows[i] == folder_row(c, depth, a.contains(c.path))
    &&& b.contains(c.path) ==> toggled == rows.take(i) + seq![folder_row(c, depth, true)] + inside(
        c,
        depth,
        b,
    ) + rows.skip(i + 1)
    &&& !b.contains(c.path) ==> i + 1 + inside(c, depth, a).len() <= rows.len() && toggled
        == rows.take(i) + seq![folder_row(c, depth, false)] + rows.skip(
        i + 1 + inside(c, depth, a).len(),
    )
    &&& !b.contains(c.path) ==> forall|j: int|
        i < j < i + 1 + inside(c, depth, a).len() ==> (#[trigger] rows[j]).depth > depth
    &&& !b.contains(c.path) && i + 1 + inside(c, depth, a).len() < rows.len() ==> rows[i + 1
        + inside(c, depth, a).len()].depth <= depth
}

proof fn toggles_with_tail(
    rows: Seq<RowView>,
    toggled: Seq<RowView>,
    tail: Seq<RowView>,
    i: int,
    c: NodeView,
    a: Set<Seq<char>>,
    b: Set<Seq<char>>,
)
    requires
        0 <= i < rows.len(),
        toggles(rows, toggled, i, c, a, b),
        tail.len() > 0 ==> tail[0].depth <= rows[i].depth,
    ensures
        toggles(rows + tail, toggled + tail, i, c, a, b),
{
    let all = rows + tail;
    let after = toggled + tail;
    let d = rows[i].depth as int;
    assert(all[i] == rows[i]);
    if b.contains(c.path) {
        assert(after =~= all.take(i) + seq![folder_row(c, d, true)] + inside(c, d, b) + all.skip(
            i + 1,
        ));
    } else {
        let e = i + 1 + inside(c, d, a).len();
        assert(after =~= all.take(i) + seq![folder_row(c, d, false)] + all.skip(e));
        assert forall|m: int| i < m < e implies (#[trigger] all[m]).depth > d by {
            assert(all[m] == rows[m]);
        }
        if e < all.len() {
            if e < rows.len() {
                assert(all[e] == rows[e]);
            } else {
                assert(all[e] == tail[0]);
            }
        }
    }
}

proof fn toggles_with_head(
    head: Seq<RowView>,
    rows: Seq<RowView>,
    toggled: Seq<RowView>,
    i: int,
    c: NodeView,
    a: Set<Seq<char>>,
    b: Set<Seq<char>>,
)
    requires
        0 <= i < rows.len(),
        toggles(rows, toggled, i, c, a, b),
    ensures
        toggles(head + rows, head + toggled, head.len() + i, c, a, b),
{
    let all = head + rows;
    let after = head + toggled;
    let d = rows[i].depth as int;
    let j = (head.len() + i) as int;
    assert(all[j] == rows[i]);
    if b.contains(c.path) {
        assert(after =~= all.take(j) + seq![folder_row(c, d, true)] + inside(c, d, b) + all.skip(
            j + 1,
        ));
    } else {
        let e = j + 1 + inside(c, d, a).len();
        assert(after =~= all.take(j) + seq![folder_row(c, d, false)] + all.skip(e));
        assert forall|m: int| j < m < e implies (#[trigger] all[m]).depth > d by {
            assert(all[m] == rows[m - head.len()]);
        }
        if e < all.len() {
            assert(all[e] == rows[e - head.len()]);
        }
    }
}

proof fn toggles_itself(n: NodeView, depth: int, a: Set<Seq<char>>, b: Set<Seq<char>>, k: int)
    requires
        0 < k <= n.children.len(),
        0 <= depth <= usize::MAX,
        n.children[k - 1].line is None,
        a.contains(n.children[k - 1].path) != b.contains(n.children[k - 1].path),
    ensures
        toggles(
            node_rows(n.children[k - 1], depth, a),
            node_rows(n.children[k - 1], depth, b),
            0,
            n.children[k - 1],
            a,
            b,
        ),
{
    let c = n.children[k - 1];
    let rows = node_rows(c, depth, a);
    let after = node_rows(c, depth, b);
    node_rows_are_deep(n, depth, a, k);
    if b.contains(c.path) {
        assert(rows =~= seq![folder_row(c, depth, false)]);
        assert(after =~= rows.take(0) + seq![folder_row(c, depth, true)] + inside(c, depth, b)
            + rows.skip(1));
    } else {
        let inner = inside(c, depth, a);
        assert(rows =~= seq![folder_row(c, depth, true)] + inner);
        assert(after =~= rows.take(0) + seq![folder_row(c, depth, false)] + rows.skip(
            (1 + inner.len()) as int,
        ));
    }
}

/// Toggling the folder in row `i` splices the rows. Gives the folder, and where it
/// stands under `n`.
proof fn toggling(
    n: NodeView,
    at: Seq<Seq<char>>,
    depth: int,
    a: Set<Seq<char>>,
    b: Set<Seq<char>>,
    k: int,
    i: int,
    p: Seq<char>,
) -> (r: (NodeView, Seq<Seq<char>>))
    requires
        well_formed(n, at),
        are_segments(at),
        0 <= depth <= usize::MAX,
        0 <= k <= n.children.len(),
        0 <= i < rows_in(n, depth, a, k).len(),
        rows_in(n, depth, a, k)[i].is_folder,
        rows_in(n, depth, a, k)[i].id == "F:"@ + p,
        forall|x: Seq<char>| x != p ==> (#[trigger] a.contains(x) == b.contains(x)),
        a.contains(p) != b.contains(p),
    ensures
        r.0.path == p,
        toggles(rows_in(n, depth, a, k), rows_in(n, depth, b, k), i, r.0, a, b),
        r.1.len() > 0,
        are_segments(r.1),
        p == path_of(at + r.1),
        node_under(n, r.1, 0) == Some(r.0),
        exists|j: int| 0 <= j < k && (#[trigger] n.children[j]).seg == r.1[0],
        depth <= rows_in(n, depth, a, k)[i].depth,
    decreases n, k,
{
    let rows = rows_in(n, depth, a, k);
    let before = rows_in(n, depth, a, k - 1);
    let c = n.children[k - 1];
    let block = node_rows(c, depth, a);
    rows_in_step(n, depth, a, k);
    rows_in_step(n, depth, b, k);
    node_rows_are_deep(n, depth, a, k);
    if i < before.len() {
        assert(rows[i] == before[i]);
        let (f, q) = toggling(n, at, depth, a, b, k - 1, i, p);
        let j = choose|j: int| 0 <= j < k - 1 && (#[trigger] n.children[j]).seg == q[0];
        assert(n.children[j].seg == q[0]);
        later_sibling_keeps(n, at, depth, a, b, k, q, p);
        toggles_with_tail(before, rows_in(n, depth, b, k - 1), block, i, f, a, b);
        (f, q)
    } else {
        let bi = i - before.len();
        assert(rows[i] == block[bi]);
        child_at_bounds(n.children, c.seg, 0);
        if bi == 0 {
            assert(c.line is None);
            assert(c.path == p) by {
                assert(("F:"@ + c.path).skip("F:"@.len() as int) =~= c.path);
                assert(("F:"@ + p).skip("F:"@.len() as int) =~= p);
            }
            let q = seq![c.seg];
            assert(are_segments(q));
            assert(at + q =~= at.push(c.seg));
            assert(n.children[k - 1].seg == q[0]);
            child_is_found(n, k - 1);
            assert(node_under(c, q, 1) == Some(c));
            siblings_keep(n, at, depth, a, b, k, q, p);
            toggles_itself(n, depth, a, b, k);
            toggles_with_head(before, block, node_rows(c, depth, b), 0, c, a, b);
            (c, q)
        } else {
            let inner = rows_in(c, depth + 1, a, c.children.len() as int);
            assert(block[bi] == inner[bi - 1]);
            let deeper = at.push(c.seg);
            assert(are_segments(deeper));
            let (f, rest) = toggling(
                c,
                deeper,
                depth + 1,
                a,
                b,
                c.children.len() as int,
                bi - 1,
                p,
            );
            let q = seq![c.seg] + rest;
            are_segments_add(seq![c.seg], rest);
            assert(at + q =~= deeper + rest);
            assert(n.children[k - 1].seg == q[0]);
            child_is_found(n, k - 1);
            node_under_skip(c, q, 1);
            assert(q.skip(1) =~= rest);
            assert(c.path != p) by {
                if c.path == p {
                    are_segments_add(deeper, rest);
                    paths_differ(deeper, deeper + rest);
                }
            }
            siblings_keep(n, at, depth, a, b, k, q, p);
            let inner_after = rows_in(c, depth + 1, b, c.children.len() as int);
            let head = seq![folder_row(c, depth, true)];
            toggles_with_head(head, inner, inner_after, bi - 1, f, a, b);
            assert(a.contains(c.path) == b.contains(c.path));
            assert(block == head + inner);
            assert(node_rows(c, depth, b) == head + inner_after);
            toggles_with_head(before, block, head + inner_after, bi, f, a, b);
            (f, q)
        }
    }
}

/// A child is found by its segment.
proof fn child_is_found(n: NodeView, j: int)
    requires
        distinct_children(n),
        0 <= j < n.children.len(),
    ensures
        child_at(n.children, n.children[j].seg, 0) == j,
{
    let seg = n.children[j].seg;
    child_at_bounds(n.children, seg, 0);
    let k = child_at(n.children, seg, 0);
    if k < j {
        assert(n.children[k].seg != n.children[j].seg);
    } else if j < k {
        assert(n.children[j].seg != seg);
    }
}

/// The rows of a child after the one that holds the toggled folder stay.
proof fn later_sibling_keeps(
    n: NodeView,
    at: Seq<Seq<char>>,
    depth: int,
    a: Set<Seq<char>>,
    b: Set<Seq<char>>,
    k: int,
    q: Seq<Seq<char>>,
    p: Seq<char>,
)
    requires
        well_formed(n, at),
        are_segments(at),
        0 < k <= n.children.len(),
        forall|x: Seq<char>| x != p ==> (#[trigger] a.contains(x) == b.contains(x)),
        q.len() > 0,
        are_segments(q),
        exists|j: int| 0 <= j < k - 1 && (#[trigger] n.children[j]).seg == q[0],
        p == path_of(at + q),
    ensures
        node_rows(n.children[k - 1], depth, a) == node_rows(n.children[k - 1], depth, b),
{
    let c = n.children[k - 1];
    let j = choose|j: int| 0 <= j < k - 1 && (#[trigger] n.children[j]).seg == q[0];
    assert(n.children[j].seg != n.children[k - 1].seg);
    if c.line is None {
        assert(c.path != p) by {
            if c.path == p {
                assert(at + seq![c.seg] =~= at.push(c.seg));
                assert(are_segments(seq![c.seg]));
                same_first_segment(at, q, seq![c.seg]);
            }
        }
        assert(!folder_paths(c, c.children.len() as int).contains(p)) by {
            if folder_paths(c, c.children.len() as int).contains(p) {
                let deeper = at.push(c.seg);
                assert(are_segments(deeper));
                let rest = folder_is_under_child(c, deeper, c.children.len() as int, p);
                let whole = seq![c.seg] + rest;
                are_segments_add(seq![c.seg], rest);
                assert(at + whole =~= deeper + rest);
                same_first_segment(at, q, whole);
            }
        }
    }
    node_rows_depend_on_folders(n, depth, a, b, k);
}

/// The rows of the children before one that holds the toggled folder stay.
proof fn siblings_keep(
    n: NodeView,
    at: Seq<Seq<char>>,
    depth: int,
    a: Set<Seq<char>>,
    b: Set<Seq<char>>,
    k: int,
    q: Seq<Seq<char>>,
    p: Seq<char>,
)
    requires
        well_formed(n, at),
        are_segments(at),
        0 < k <= n.children.len(),
        forall|x: Seq<char>| x != p ==> (#[trigger] a.contains(x) == b.contains(x)),
        q.len() > 0,
        are_segments(q),
        q[0] == n.children[k - 1].seg,
        p == path_of(at + q),
    ensures
        rows_in(n, depth, a, k - 1) == rows_in(n, depth, b, k - 1),
{
    assert(!folder_paths(n, k - 1).contains(p)) by {
        if folder_paths(n, k - 1).contains(p) {
            let other = folder_is_under_child(n, at, k - 1, p);
            same_first_segment(at, q, other);
            let j = choose|j: int| 0 <= j < k - 1 && (#[trigger] n.children[j]).seg == other[0];
            assert(n.children[j].seg != n.children[k - 1].seg);
        }
    }
    rows_depend_on_folders(n, depth, a, b, k - 1);
}

// ---------------------------------------------------------------------------
// The laws
// ---------------------------------------------------------------------------

/// Do two lists of rows agree but for the jump numbers of their lines?
spec fn same_but_numbers(a: Seq<RowView>, b: Seq<RowView>) -> bool {
    &&& a.len() == b.len()
    &&& forall|i: int|
        0 <= i < a.len() ==> (#[trigger] a[i]) == RowView { number: a[i].number, ..b[i] } && (
        b[i].is_folder ==> a[i] == b[i])
}

proof fn numbering_forgets(a: Seq<RowView>, b: Seq<RowView>)
    requires
        same_but_numbers(a, b),
    ensures
        numbered(a) == numbered(b),
{
    assert forall|k: int| 0 <= k <= a.len() implies #[trigger] lines_among(a, k) == lines_among(
        b,
        k,
    ) by {
        lines_among_agree(a, b, k);
    }
    assert forall|i: int| 0 <= i < a.len() implies numbered(a)[i] == numbered(b)[i] by {
        assert(a[i] == RowView { number: a[i].number, ..b[i] });
        assert(lines_among(a, i + 1) == lines_among(b, i + 1));
    }
    assert(numbered(a) =~= numbered(b));
}

proof fn lines_among_agree(a: Seq<RowView>, b: Seq<RowView>, k: int)
    requires
        same_but_numbers(a, b),
        0 <= k <= a.len(),
    ensures
        lines_among(a, k) == lines_among(b, k),
    decreases k,
{
    if k > 0 {
        lines_among_agree(a, b, k - 1);
        assert(a[k - 1] == RowView { number: a[k - 1].number, ..b[k - 1] });
    }
}

proof fn run_end_is(rows: Seq<RowView>, depth: int, i: int, e: int)
    requires
        0 <= i <= e <= rows.len(),
        forall|j: int| i <= j < e ==> (#[trigger] rows[j]).depth > depth,
        e < rows.len() ==> rows[e].depth <= depth,
    ensures
        run_end(rows, depth, i) == e,
    decreases e - i,
{
    if i < e {
        run_end_is(rows, depth, i + 1, e);
    }
}

/// Opening a closed folder in place gives the rows of the whole tree with the
/// folder among the open ones; closing an open one, those without it.
pub proof fn splicing_matches_full_build(root: NodeView, expanded: Set<Seq<char>>, i: int)
    requires
        well_formed(root, Seq::empty()),
        0 <= i < visible(root, expanded).len(),
        visible(root, expanded)[i].is_folder,
    ensures
        ({
            let rows = visible(root, expanded);
            let p = path_of_id(rows[i].id);
            &&& rows[i].expanded == expanded.contains(p)
            &&& !rows[i].expanded ==> opened_rows(rows, i, root, expanded.insert(p)) == visible(
                root,
                expanded.insert(p),
            )
            &&& rows[i].expanded ==> closed_rows(rows, i) == visible(root, expanded.remove(p))
        }),
{
    let none = Seq::<Seq<char>>::empty();
    let k = root.children.len() as int;
    let plain = rows_in(root, 0, expanded, k);
    let rows = visible(root, expanded);
    reveal_strlit("F:");
    assert(rows[i] == plain[i]);
    let (owner, at) = folder_row_owner(root, 0, expanded, k, i);
    assert(("F:"@ + owner.path).skip(2) =~= owner.path);
    let p = path_of_id(rows[i].id);
    let toggled = if expanded.contains(p) {
        expanded.remove(p)
    } else {
        expanded.insert(p)
    };
    let (c, q) = toggling(root, none, 0, expanded, toggled, k, i, p);
    let after = rows_in(root, 0, toggled, k);
    let d = rows[i].depth as int;
    if expanded.contains(p) {
        let e = i + 1 + inside(c, d, expanded).len();
        assert forall|j: int| i + 1 <= j < e implies (#[trigger] rows[j]).depth > d by {
            assert(plain[j].depth > d);
        }
        run_end_is(rows, d, i + 1, e);
        let row = RowView { expanded: false, ..rows[i] };
        let spliced = rows.take(i) + seq![row] + rows.skip(e);
        assert(same_but_numbers(spliced, after)) by {
            assert forall|j: int| 0 <= j < spliced.len() implies (#[trigger] spliced[j])
                == RowView { number: spliced[j].number, ..after[j] } && (after[j].is_folder
                ==> spliced[j] == after[j]) by {
                if j < i {
                    assert(spliced[j] == rows[j] && after[j] == plain[j]);
                } else if j > i {
                    assert(spliced[j] == rows[j - i - 1 + e] && after[j] == plain[j - i - 1 + e]);
                }
            }
        }
        numbering_forgets(spliced, after);
    } else {
        assert(none + q =~= q);
        path_splits(q);
        assert(node_at_path(root, p) == Some(c));
        let row = RowView { expanded: true, ..rows[i] };
        let within = inside(c, d, toggled);
        let spliced = rows.take(i) + seq![row] + within + rows.skip(i + 1);
        let n = within.len();
        assert(same_but_numbers(spliced, after)) by {
            assert forall|j: int| 0 <= j < spliced.len() implies (#[trigger] spliced[j])
                == RowView { number: spliced[j].number, ..after[j] } && (after[j].is_folder
                ==> spliced[j] == after[j]) by {
                if j < i {
                    assert(spliced[j] == rows[j] && after[j] == plain[j]);
                } else if j > i + n {
                    assert(spliced[j] == rows[j - n] && after[j] == plain[j - n]);
                } else if j > i {
                    assert(spliced[j] == within[j - i - 1] && after[j] == within[j - i - 1]);
                }
            }
        }
        numbering_forgets(spliced, after);
    }
}

/// The folder that a folder row is of.
proof fn folder_row_owner(n: NodeView, depth: int, expanded: Set<Seq<char>>, k: int, i: int) -> (r: (
    NodeView,
    int,
))
    requires
        0 <= k <= n.children.len(),
        0 <= i < rows_in(n, depth, expanded, k).len(),
        rows_in(n, depth, expanded, k)[i].is_folder,
    ensures
        rows_in(n, depth, expanded, k)[i] == folder_row(r.0, r.1, expanded.contains(r.0.path)),
    decreases n, k,
{
    rows_in_step(n, depth, expanded, k);
    let before = rows_in(n, depth, expanded, k - 1);
    let c = n.children[k - 1];
    let block = node_rows(c, depth, expanded);
    let rows = rows_in(n, depth, expanded, k);
    if i < before.len() {
        assert(rows[i] == before[i]);
        folder_row_owner(n, depth, expanded, k - 1, i)
    } else {
        let bi = i - before.len();
        assert(rows[i] == block[bi]);
        if bi == 0 {
            (c, depth)
        } else {
            let inner = rows_in(c, depth + 1, expanded, c.children.len() as int);
            assert(block[bi] == inner[bi - 1]);
            folder_row_owner(c, depth + 1, expanded, c.children.len() as int, bi - 1)
        }
    }
}

/// Jump numbers are sequential: the lines among the rows are numbered from one up,
/// in display order, without a gap, and folders have no number.
pub proof fn jump_numbers_are_sequential(root: NodeView, expanded: Set<Seq<char>>, i: int)
    requires
        0 <= i < visible(root, expanded).len(),
        visible(root, expanded).len() <= usize::MAX,
    ensures
        ({
            let rows = visible(root, expanded);
            &&& rows[i].is_folder ==> rows[i].number is None
            &&& !rows[i].is_folder ==> rows[i].number is Some && rows[i].number->0
                == lines_among(rows, i) + 1
        }),
{
    let k = root.children.len() as int;
    let plain = rows_in(root, 0, expanded, k);
    let rows = visible(root, expanded);
    assert(same_but_numbers(rows, plain)) by {
        assert forall|j: int| 0 <= j < rows.len() implies (#[trigger] rows[j]) == RowView {
            number: rows[j].number,
            ..plain[j]
        } && (plain[j].is_folder ==> rows[j] == plain[j]) by {}
    }
    lines_among_agree(rows, plain, i);
    lines_among_bounded(plain, i + 1);
    if rows[i].is_folder {
        let owner = folder_row_owner(root, 0, expanded, k, i);
    }
}

proof fn lines_among_bounded(rows: Seq<RowView>, k: int)
    requires
        0 <= k,
    ensures
        0 <= lines_among(rows, k) <= k,
    decreases k,
{
    if k > 0 {
        lines_among_bounded(rows, k - 1);
    }
}

// ---------------------------------------------------------------------------
// Row identifiers
// ---------------------------------------------------------------------------

/// Has `s` no NUL character in it?
pub open spec fn nul_free(s: Seq<char>) -> bool {
    forall|i: int| 0 <= i < s.len() ==> #[trigger] s[i] != '\0'
}

/// Is the path of a child that is a line what its place under `at` makes it: that
/// of a leaf or, where a folder has the very name of a line, that of the folder?
pub open spec fn leaf_is_placed(c: NodeView, at: Seq<Seq<char>>) -> bool {
    ||| c.path == path_of(at).push('\0') + c.seg
    ||| c.seg.len() > 0 && slash_free(c.seg) && nul_free(c.seg) && c.path == path_of(
        at.push(c.seg),
    )
}

/// Are the lines under a node that stands at `at` placed, and do no folders have a
/// NUL in their names?
pub open spec fn leaves_are_placed(n: NodeView, at: Seq<Seq<char>>) -> bool
    decreases n,
{
    forall|i: int|
        #![trigger n.children[i]]
        0 <= i < n.children.len() ==> {
            let c = n.children[i];
            if c.line is Some {
                leaf_is_placed(c, at)
            } else {
                nul_free(c.seg) && leaves_are_placed(c, at.push(c.seg))
            }
        }
}

proof fn with_child_places_leaves(n: NodeView, at: Seq<Seq<char>>, c: NodeView)
    requires
        leaves_are_placed(n, at),
        c.line is Some ==> leaf_is_placed(c, at),
        c.line is None ==> nul_free(c.seg) && leaves_are_placed(c, at.push(c.seg)),
    ensures
        leaves_are_placed(NodeView { children: with_child(n.children, c), ..n }, at),
{
    let p = display_position(n.children, c.seg, n.children.len() as int);
    display_position_bounds(n.children, c.seg, n.children.len() as int);
    let m = NodeView { children: with_child(n.children, c), ..n };
    assert forall|i: int| #![trigger m.children[i]] 0 <= i < m.children.len() implies {
        let c = m.children[i];
        if c.line is Some {
            leaf_is_placed(c, at)
        } else {
            nul_free(c.seg) && leaves_are_placed(c, at.push(c.seg))
        }
    } by {
        if i < p {
            assert(m.children[i] == n.children[i]);
        } else if i > p {
            assert(m.children[i] == n.children[i - 1]);
        }
    }
}

proof fn with_update_places_leaves(n: NodeView, at: Seq<Seq<char>>, k: int, c: NodeView)
    requires
        leaves_are_placed(n, at),
        0 <= k < n.children.len(),
        c.line is Some ==> leaf_is_placed(c, at),
        c.line is None ==> nul_free(c.seg) && leaves_are_placed(c, at.push(c.seg)),
    ensures
        leaves_are_placed(NodeView { children: n.children.update(k, c), ..n }, at),
{
    let m = NodeView { children: n.children.update(k, c), ..n };
    assert forall|i: int| #![trigger m.children[i]] 0 <= i < m.children.len() implies {
        let c = m.children[i];
        if c.line is Some {
            leaf_is_placed(c, at)
        } else {
            nul_free(c.seg) && leaves_are_placed(c, at.push(c.seg))
        }
    } by {
        if i != k {
            assert(m.children[i] == n.children[i]);
        }
    }
}

proof fn woven_places_leaves(
    n: NodeView,
    at: Seq<Seq<char>>,
    segs: Seq<Seq<char>>,
    key: Seq<char>,
    line: LineView,
)
    requires
        well_formed(n, at),
        leaves_are_placed(n, at),
        are_segments(at),
        are_segments(segs),
        forall|i: int| 0 <= i < segs.len() ==> nul_free(#[trigger] segs[i]),
    ensures
        leaves_are_placed(woven(n, segs, path_of(at), key, line), at),
    decreases segs.len(),
{
    let path = path_of(at);
    if segs.len() == 0 {
        let k = child_at(n.children, key, 0);
        child_at_bounds(n.children, key, 0);
        if k < n.children.len() {
            with_update_places_leaves(
                n,
                at,
                k,
                NodeView { line: Some(line), ..n.children[k] },
            );
        } else {
            with_child_places_leaves(n, at, leaf(path, key, line));
        }
    } else {
        let seg = segs[0];
        let inner = extended(path, seg);
        let k = child_at(n.children, seg, 0);
        child_at_bounds(n.children, seg, 0);
        path_extends(at, seg);
        let deeper = at.push(seg);
        assert(are_segments(deeper));
        let rest = segs.skip(1);
        assert forall|i: int| 0 <= i < rest.len() implies (#[trigger] rest[i]).len() > 0
            && slash_free(rest[i]) && nul_free(rest[i]) by {
            assert(rest[i] == segs[i + 1]);
        }
        assert(nul_free(segs[0]));
        if k < n.children.len() {
            let c = n.children[k];
            if c.line is None {
                woven_places_leaves(c, deeper, rest, key, line);
            }
            with_update_places_leaves(n, at, k, woven(c, rest, inner, key, line));
        } else {
            let c = folder(seg, inner);
            woven_places_leaves(c, deeper, rest, key, line);
            with_child_places_leaves(n, at, woven(c, rest, inner, key, line));
        }
    }
}

proof fn pieces_are_nul_free(s: Seq<char>, i: int)
    requires
        0 <= i <= s.len(),
        nul_free(s),
    ensures
        forall|k: int|
            0 <= k < pieces(s, '/', i).len() ==> nul_free(#[trigger] pieces(s, '/', i)[k]),
    decreases s.len() - i,
{
    next_of_bounds(s, '/', i);
    let j = next_of(s, '/', i);
    let all = pieces(s, '/', i);
    if j < s.len() {
        pieces_are_nul_free(s, j + 1);
        let rest = pieces(s, '/', j + 1);
        assert forall|k: int| 0 <= k < all.len() implies nul_free(#[trigger] all[k]) by {
            if k > 0 {
                assert(all[k] == rest[k - 1]);
            }
        }
    }
}

proof fn segments_are_nul_free(file: Seq<char>)
    requires
        nul_free(file),
    ensures
        forall|i: int| 0 <= i < segments(file).len() ==> nul_free(#[trigger] segments(file)[i]),
{
    let all = pieces(slashed(file), '/', 0);
    let pick = |s: Seq<char>| s.len() > 0;
    pieces_are_nul_free(slashed(file), 0);
    let segs = segments(file);
    assert forall|i: int| 0 <= i < segs.len() implies nul_free(#[trigger] segs[i]) by {
        assert(all.filter(pick).contains(segs[i]));
        all.lemma_filter_contains_rev(pick, segs[i]);
    }
}

/// In every tree that is built from lines of files without a NUL in their names,
/// lines are placed.
pub proof fn built_trees_place_leaves(lines: Seq<LineView>, k: int)
    requires
        0 <= k <= lines.len(),
        forall|i: int| 0 <= i < lines.len() ==> nul_free((#[trigger] lines[i]).file),
    ensures
        leaves_are_placed(tree_of(lines, k), Seq::empty()),
    decreases k,
{
    if k > 0 {
        built_trees_place_leaves(lines, k - 1);
        built_trees_are_well_formed(lines, k - 1);
        let l = lines[k - 1];
        segments_are_segments(l.file);
        segments_are_nul_free(l.file);
        assert(path_of(Seq::empty()) =~= Seq::<char>::empty());
        woven_places_leaves(
            tree_of(lines, k - 1),
            Seq::empty(),
            segments(l.file),
            leaf_key(l.line as nat, (k - 1) as nat),
            l,
        );
    }
}

/// Where the node of row `i` stands under `n`.
spec fn row_place(n: NodeView, depth: int, expanded: Set<Seq<char>>, k: int, i: int) -> Seq<Seq<char>>
    decreases n, k,
{
    if k <= 0 || k > n.children.len() {
        Seq::empty()
    } else {
        let before = rows_in(n, depth, expanded, k - 1);
        let c = n.children[k - 1];
        if i < before.len() {
            row_place(n, depth, expanded, k - 1, i)
        } else if i == before.len() {
            seq![c.seg]
        } else {
            seq![c.seg] + row_place(
                c,
                depth + 1,
                expanded,
                c.children.len() as int,
                i - before.len() - 1,
            )
        }
    }
}

/// Does the identifier of a row follow from where its node stands?
spec fn id_follows(row: RowView, place: Seq<Seq<char>>) -> bool {
    let above = place.drop_last();
    &&& place.len() > 0
    &&& are_segments(above)
    &&& forall|i: int| 0 <= i < above.len() ==> nul_free(#[trigger] above[i])
    &&& {
        ||| row.is_folder && are_segments(place) && row.id == "F:"@ + path_of(place)
        ||| !row.is_folder && row.id == "L:"@ + (path_of(above).push('\0') + place.last())
        ||| !row.is_folder && are_segments(place) && nul_free(place.last()) && row.id == "L:"@
            + path_of(place)
    }
}

proof fn ids_follow(n: NodeView, at: Seq<Seq<char>>, depth: int, expanded: Set<Seq<char>>, k: int, i: int)
    requires
        well_formed(n, at),
        leaves_are_placed(n, at),
        are_segments(at),
        forall|m: int| 0 <= m < at.len() ==> nul_free(#[trigger] at[m]),
        0 <= k <= n.children.len(),
        0 <= i < rows_in(n, depth, expanded, k).len(),
    ensures
        id_follows(
            rows_in(n, depth, expanded, k)[i],
            at + row_place(n, depth, expanded, k, i),
        ),
        row_place(n, depth, expanded, k, i).len() > 0,
        exists|j: int|
            0 <= j < k && (#[trigger] n.children[j]).seg == row_place(n, depth, expanded, k, i)[0],
    decreases n, k,
{
    rows_in_step(n, depth, expanded, k);
    let rows = rows_in(n, depth, expanded, k);
    let before = rows_in(n, depth, expanded, k - 1);
    let c = n.children[k - 1];
    let block = node_rows(c, depth, expanded);
    let place = row_place(n, depth, expanded, k, i);
    if i < before.len() {
        assert(rows[i] == before[i]);
        ids_follow(n, at, depth, expanded, k - 1, i);
        let j = choose|j: int| 0 <= j < k - 1 && (#[trigger] n.children[j]).seg == place[0];
        assert(n.children[j].seg == place[0]);
    } else {
        let bi = i - before.len();
        assert(rows[i] == block[bi]);
        assert(n.children[k - 1].seg == place[0]);
        let deeper = at.push(c.seg);
        if bi == 0 {
            assert(at + place =~= deeper);
            assert(deeper.drop_last() =~= at);
            if c.line is Some {
                assert(leaf_is_placed(c, at));
                if c.path != path_of(at).push('\0') + c.seg {
                    assert(are_segments(deeper));
                }
            } else {
                assert(are_segments(deeper));
            }
        } else {
            let inner = rows_in(c, depth + 1, expanded, c.children.len() as int);
            assert(block[bi] == inner[bi - 1]);
            assert(are_segments(deeper));
            ids_follow(c, deeper, depth + 1, expanded, c.children.len() as int, bi - 1);
            let rest = row_place(c, depth + 1, expanded, c.children.len() as int, bi - 1);
            assert(at + place =~= deeper + rest);
        }
    }
}

proof fn places_differ(
    n: NodeView,
    at: Seq<Seq<char>>,
    depth: int,
    expanded: Set<Seq<char>>,
    k: int,
    i: int,
    j: int,
)
    requires
        well_formed(n, at),
        leaves_are_placed(n, at),
        are_segments(at),
        forall|m: int| 0 <= m < at.len() ==> nul_free(#[trigger] at[m]),
        0 <= k <= n.children.len(),
        0 <= i < j < rows_in(n, depth, expanded, k).len(),
    ensures
        row_place(n, depth, expanded, k, i) != row_place(n, depth, expanded, k, j),
    decreases n, k,
{
    rows_in_step(n, depth, expanded, k);
    let before = rows_in(n, depth, expanded, k - 1);
    let c = n.children[k - 1];
    let block = node_rows(c, depth, expanded);
    let pi = row_place(n, depth, expanded, k, i);
    let pj = row_place(n, depth, expanded, k, j);
    if j < before.len() {
        places_differ(n, at, depth, expanded, k - 1, i, j);
    } else if i < before.len() {
        ids_follow(n, at, depth, expanded, k - 1, i);
        let m = choose|m: int| 0 <= m < k - 1 && (#[trigger] n.children[m]).seg == pi[0];
        assert(n.children[m].seg != n.children[k - 1].seg);
        assert(pj[0] == c.seg);
    } else {
        let bi = i - before.len();
        let bj = j - before.len();
        let kids = c.children.len() as int;
        let deeper = at.push(c.seg);
        assert(c.line is None);
        assert(are_segments(deeper));
        let inner = rows_in(c, depth + 1, expanded, kids);
        assert(block == seq![folder_row(c, depth, true)] + inner);
        let rj = row_place(c, depth + 1, expanded, kids, bj - 1);
        ids_follow(c, deeper, depth + 1, expanded, kids, bj - 1);
        assert(pj.skip(1) =~= rj);
        if bi > 0 {
            let ri = row_place(c, depth + 1, expanded, kids, bi - 1);
            places_differ(c, deeper, depth + 1, expanded, kids, bi - 1, bj - 1);
            assert(pi.skip(1) =~= ri);
        } else {
            assert(pi.len() == 1);
        }
    }
}

proof fn path_is_nul_free(segs: Seq<Seq<char>>)
    requires
        forall|i: int| 0 <= i < segs.len() ==> nul_free(#[trigger] segs[i]),
    ensures
        nul_free(path_of(segs)),
    decreases segs.len(),
{
    if segs.len() > 1 {
        let head = segs.drop_last();
        assert forall|i: int| 0 <= i < head.len() implies nul_free(#[trigger] head[i]) by {
            assert(head[i] == segs[i]);
        }
        path_is_nul_free(head);
        assert(nul_free(segs.last()));
    } else if segs.len() == 1 {
        assert(nul_free(segs[0]));
    }
}

/// The two sides of the first NUL are determined by the text.
proof fn nul_splits(a: Seq<char>, x: Seq<char>, b: Seq<char>, y: Seq<char>)
    requires
        nul_free(a),
        nul_free(b),
        a.push('\0') + x == b.push('\0') + y,
    ensures
        a == b,
        x == y,
{
    let s = a.push('\0') + x;
    let t = b.push('\0') + y;
    assert(s[a.len() as int] == '\0');
    assert(t[b.len() as int] == '\0');
    if a.len() < b.len() {
        assert(t[a.len() as int] == b[a.len() as int]);
    }
    if b.len() < a.len() {
        assert(s[b.len() as int] == a[b.len() as int]);
    }
    assert(a =~= s.take(a.len() as int));
    assert(b =~= t.take(b.len() as int));
    assert(x =~= s.skip((a.len() + 1) as int));
    assert(y =~= t.skip((b.len() + 1) as int));
}

proof fn same_id_same_place(a: RowView, b: RowView, p: Seq<Seq<char>>, q: Seq<Seq<char>>)
    requires
        id_follows(a, p),
        id_follows(b, q),
        a.id == b.id,
    ensures
        p == q,
{
    reveal_strlit("F:");
    reveal_strlit("L:");
    let (pa, qa) = (p.drop_last(), q.drop_last());
    path_is_nul_free(pa);
    path_is_nul_free(qa);
    assert(p =~= pa.push(p.last()));
    assert(q =~= qa.push(q.last()));
    assert(a.id[0] == (if a.is_folder { 'F' } else { 'L' }));
    assert(b.id[0] == (if b.is_folder { 'F' } else { 'L' }));
    let (x, y) = (a.id.skip(2), b.id.skip(2));
    if a.is_folder {
        assert(x =~= path_of(p));
        assert(y =~= path_of(q));
        paths_differ(p, q);
    } else {
        let lp = path_of(pa).push('\0') + p.last();
        let lq = path_of(qa).push('\0') + q.last();
        let a_leaf = a.id == "L:"@ + lp;
        let b_leaf = b.id == "L:"@ + lq;
        if a_leaf {
            assert(x =~= lp);
            assert(lp[path_of(pa).len() as int] == '\0');
        } else {
            assert(x =~= path_of(p));
            assert forall|i: int| 0 <= i < p.len() implies nul_free(#[trigger] p[i]) by {
                if i < pa.len() {
                    assert(p[i] == pa[i]);
                }
            }
            path_is_nul_free(p);
        }
        if b_leaf {
            assert(y =~= lq);
            assert(lq[path_of(qa).len() as int] == '\0');
        } else {
            assert(y =~= path_of(q));
            assert forall|i: int| 0 <= i < q.len() implies nul_free(#[trigger] q[i]) by {
                if i < qa.len() {
                    assert(q[i] == qa[i]);
                }
            }
            path_is_nul_free(q);
        }
        if a_leaf && b_leaf {
            nul_splits(path_of(pa), p.last(), path_of(qa), q.last());
            if pa.len() > 0 && qa.len() > 0 {
                paths_differ(pa, qa);
            } else {
                assert(pa.take(0) =~= Seq::<Seq<char>>::empty());
                if pa.len() > 0 {
                    path_extends(pa, p.last());
                }
                if qa.len() > 0 {
                    path_extends(qa, q.last());
                }
                assert(pa =~= qa);
            }
        } else if !a_leaf && !b_leaf {
            paths_differ(p, q);
        }
    }
}

/// No two rows have the same identifier.
pub proof fn row_ids_are_unique(root: NodeView, expanded: Set<Seq<char>>, i: int, j: int)
    requires
        well_formed(root, Seq::empty()),
        leaves_are_placed(root, Seq::empty()),
        0 <= i < j < visible(root, expanded).len(),
    ensures
        visible(root, expanded)[i].id != visible(root, expanded)[j].id,
{
    let none = Seq::<Seq<char>>::empty();
    let k = root.children.len() as int;
    let rows = rows_in(root, 0, expanded, k);
    let p = row_place(root, 0, expanded, k, i);
    let q = row_place(root, 0, expanded, k, j);
    ids_follow(root, none, 0, expanded, k, i);
    ids_follow(root, none, 0, expanded, k, j);
    places_differ(root, none, 0, expanded, k, i, j);
    assert(none + p =~= p);
    assert(none + q =~= q);
    if rows[i].id == rows[j].id {
        same_id_same_place(rows[i], rows[j], p, q);
    }
}

/// The rows of lines whose files have no NUL in their names have distinct
/// identifiers, whatever folders are open.
pub proof fn rows_of_lines_have_unique_ids(
    lines: Seq<LineView>,
    expanded: Set<Seq<char>>,
    i: int,
    j: int,
)
    requires
        forall|k: int| 0 <= k < lines.len() ==> nul_free((#[trigger] lines[k]).file),
        0 <= i < j < visible(tree_of(lines, lines.len() as int), expanded).len(),
    ensures
        visible(tree_of(lines, lines.len() as int), expanded)[i].id != visible(
            tree_of(lines, lines.len() as int),
            expanded,
        )[j].id,
{
    built_trees_are_well_formed(lines, lines.len() as int);
    built_trees_place_leaves(lines, lines.len() as int);
    row_ids_are_unique(tree_of(lines, lines.len() as int), expanded, i, j);
}

// ---------------------------------------------------------------------------
// Folders around rows
// ---------------------------------------------------------------------------

/// Does the identifier of a row say that it is in the given folder: as a folder, as
/// a line, or as a line that has the very name of a folder?
pub open spec fn is_in_folder(row: RowView, folder: RowView) -> bool {
    let p = path_of_id(folder.id);
    exists|name: Seq<char>|
        #![trigger extended(p, name)]
        row.id == "F:"@ + extended(p, name) || row.id == "L:"@ + (p.push('\0') + name) || row.id
            == "L:"@ + extended(p, name)
}

proof fn row_has_parent(
    n: NodeView,
    depth: int,
    expanded: Set<Seq<char>>,
    k: int,
    i: int,
) -> (j: int)
    requires
        0 <= depth <= usize::MAX,
        0 <= k <= n.children.len(),
        0 <= i < rows_in(n, depth, expanded, k).len(),
    ensures
        row_place(n, depth, expanded, k, i).len() > 0,
        rows_in(n, depth, expanded, k)[i].depth == depth + row_place(
            n,
            depth,
            expanded,
            k,
            i,
        ).len() - 1,
        row_place(n, depth, expanded, k, i).len() > 1 ==> {
            let rows = rows_in(n, depth, expanded, k);
            &&& 0 <= j < i
            &&& rows[j].is_folder && rows[j].expanded
            &&& rows[j].depth + 1 == rows[i].depth
            &&& row_place(n, depth, expanded, k, j) == row_place(
                n,
                depth,
                expanded,
                k,
                i,
            ).drop_last()
        },
    decreases n, k,
{
    rows_in_step(n, depth, expanded, k);
    let rows = rows_in(n, depth, expanded, k);
    let before = rows_in(n, depth, expanded, k - 1);
    let c = n.children[k - 1];
    let block = node_rows(c, depth, expanded);
    let place = row_place(n, depth, expanded, k, i);
    if i < before.len() {
        assert(rows[i] == before[i]);
        let j = row_has_parent(n, depth, expanded, k - 1, i);
        if place.len() > 1 {
            assert(rows[j] == before[j]);
        }
        j
    } else {
        let bi = i - before.len();
        assert(rows[i] == block[bi]);
        if bi == 0 {
            0
        } else {
            let kids = c.children.len() as int;
            let inner = rows_in(c, depth + 1, expanded, kids);
            assert(block[bi] == inner[bi - 1]);
            let m = row_has_parent(c, depth + 1, expanded, kids, bi - 1);
            let rest = row_place(c, depth + 1, expanded, kids, bi - 1);
            assert(place == seq![c.seg] + rest);
            if rest.len() == 1 {
                let j = before.len() as int;
                assert(rows[j] == block[0]);
                assert(place.drop_last() =~= seq![c.seg]);
                assert(row_place(n, depth, expanded, k, j) == seq![c.seg]);
                j
            } else {
                let j = before.len() + 1 + m;
                assert(rows[j] == block[m + 1]);
                assert(block[m + 1] == inner[m]);
                assert(place.drop_last() =~= seq![c.seg] + rest.drop_last());
                j
            }
        }
    }
}

/// Whatever is shown, the folder that it is in is shown above it, open.
pub proof fn enclosing_folders_are_visible(root: NodeView, expanded: Set<Seq<char>>, i: int)
    requires
        well_formed(root, Seq::empty()),
        leaves_are_placed(root, Seq::empty()),
        0 <= i < visible(root, expanded).len(),
        visible(root, expanded)[i].depth > 0,
    ensures
        ({
            let rows = visible(root, expanded);
            exists|j: int|
                0 <= j < i && (#[trigger] rows[j]).is_folder && rows[j].expanded && rows[j].depth + 1
                    == rows[i].depth && is_in_folder(rows[i], rows[j])
        }),
{
    let none = Seq::<Seq<char>>::empty();
    let k = root.children.len() as int;
    let plain = rows_in(root, 0, expanded, k);
    let rows = visible(root, expanded);
    let j = row_has_parent(root, 0, expanded, k, i);
    let p = row_place(root, 0, expanded, k, i);
    let q = row_place(root, 0, expanded, k, j);
    ids_follow(root, none, 0, expanded, k, i);
    ids_follow(root, none, 0, expanded, k, j);
    assert(none + p =~= p);
    assert(none + q =~= q);
    reveal_strlit("F:");
    assert(("F:"@ + path_of(q)).skip(2) =~= path_of(q));
    assert(p.drop_last() == q);
    assert(p =~= q.push(p.last()));
    path_extends(q, p.last());
    assert(rows[j].id == plain[j].id && rows[i].id == plain[i].id);
    assert(path_of_id(rows[j].id) == path_of(q));
    let name = p.last();
    assert(path_of(p) == extended(path_of(q), name));
    assert(is_in_folder(rows[i], rows[j]));
}

/// Every folder is found by its path.
pub proof fn folders_are_found(root: NodeView, p: Seq<char>)
    requires
        well_formed(root, Seq::empty()),
        folder_paths(root, root.children.len() as int).contains(p),
    ensures
        node_at_path(root, p) matches Some(c) && c.path == p && c.line is None,
{
    let none = Seq::<Seq<char>>::empty();
    let (c, q) = folder_stands(root, none, root.children.len() as int, p);
    assert(none + q =~= q);
    path_splits(q);
}

proof fn folder_stands(n: NodeView, at: Seq<Seq<char>>, k: int, p: Seq<char>) -> (r: (
    NodeView,
    Seq<Seq<char>>,
))
    requires
        well_formed(n, at),
        are_segments(at),
        0 <= k <= n.children.len(),
        folder_paths(n, k).contains(p),
    ensures
        r.0.path == p,
        r.0.line is None,
        r.1.len() > 0,
        are_segments(r.1),
        p == path_of(at + r.1),
        node_under(n, r.1, 0) == Some(r.0),
    decreases n, k,
{
    if k > 0 {
        folder_paths_step(n, k);
        let c = n.children[k - 1];
        if folder_paths(n, k - 1).contains(p) {
            folder_stands(n, at, k - 1, p)
        } else if c.path == p {
            let q = seq![c.seg];
            assert(are_segments(q));
            assert(at + q =~= at.push(c.seg));
            child_is_found(n, k - 1);
            assert(node_under(c, q, 1) == Some(c));
            (c, q)
        } else {
            let deeper = at.push(c.seg);
            assert(are_segments(deeper));
            let (f, rest) = folder_stands(c, deeper, c.children.len() as int, p);
            let q = seq![c.seg] + rest;
            are_segments_add(seq![c.seg], rest);
            assert(at + q =~= deeper + rest);
            child_is_found(n, k - 1);
            node_under_skip(c, q, 1);
            assert(q.skip(1) =~= rest);
            (f, q)
        }
    } else {
        (n, Seq::empty())
    }
}

// ---------------------------------------------------------------------------
// Display order
// ---------------------------------------------------------------------------

/// Does no child come before one that precedes it, by its name in lower case?
pub open spec fn children_in_order(n: NodeView) -> bool {
    forall|i: int, j: int|
        0 <= i < j < n.children.len() ==> !text_before(
            lowercase((#[trigger] n.children[j]).seg),
            lowercase((#[trigger] n.children[i]).seg),
            0,
        )
}

/// Are the children of a node, and of every node under it, in display order?
pub open spec fn in_display_order(n: NodeView) -> bool
    decreases n,
{
    &&& children_in_order(n)
    &&& forall|i: int|
        0 <= i < n.children.len() ==> in_display_order(#[trigger] n.children[i])
}

proof fn text_order(a: Seq<char>, b: Seq<char>, c: Seq<char>)
    ensures
        text_before(a, b, 0) ==> !text_before(b, a, 0),
        !text_before(b, a, 0) && !text_before(c, b, 0) ==> !text_before(c, a, 0),
{
    if text_before(a, b, 0) {
        text_before_asymmetric(a, b, 0);
    }
    if !text_before(b, a, 0) && !text_before(c, b, 0) && text_before(c, a, 0) {
        if text_before(a, b, 0) {
            text_before_transitive(c, a, b, 0);
        } else {
            assert(a.take(0) =~= b.take(0));
            text_before_total(a, b, 0);
        }
    }
}

proof fn display_position_splits(children: Seq<NodeView>, seg: Seq<char>, k: int)
    requires
        0 <= k <= children.len(),
        forall|j: int|
            k <= j < children.len() ==> text_before(
                lowercase(seg),
                lowercase((#[trigger] children[j]).seg),
                0,
            ),
    ensures
        ({
            let p = display_position(children, seg, k);
            &&& 0 <= p <= k
            &&& forall|j: int|
                p <= j < children.len() ==> text_before(
                    lowercase(seg),
                    lowercase((#[trigger] children[j]).seg),
                    0,
                )
            &&& p > 0 ==> !text_before(lowercase(seg), lowercase(children[p - 1].seg), 0)
        }),
    decreases k,
{
    if k > 0 && text_before(lowercase(seg), lowercase(children[k - 1].seg), 0) {
        display_position_splits(children, seg, k - 1);
    }
}

proof fn with_child_is_in_order(n: NodeView, c: NodeView)
    requires
        in_display_order(n),
        in_display_order(c),
    ensures
        in_display_order(NodeView { children: with_child(n.children, c), ..n }),
{
    let p = display_position(n.children, c.seg, n.children.len() as int);
    display_position_splits(n.children, c.seg, n.children.len() as int);
    let m = NodeView { children: with_child(n.children, c), ..n };
    let x = lowercase(c.seg);
    assert forall|i: int, j: int| 0 <= i < j < m.children.len() implies !text_before(
        lowercase((#[trigger] m.children[j]).seg),
        lowercase((#[trigger] m.children[i]).seg),
        0,
    ) by {
        let a = lowercase(m.children[i].seg);
        let b = lowercase(m.children[j].seg);
        if i == p {
            assert(m.children[j] == n.children[j - 1]);
            text_order(x, b, x);
        } else if j == p {
            assert(m.children[i] == n.children[i]);
            let last = lowercase(n.children[p - 1].seg);
            if i < p - 1 {
                assert(!text_before(last, a, 0));
                text_order(a, last, x);
            }
        } else {
            let si = if i < p { n.children[i] } else { n.children[i - 1] };
            let sj = if j < p { n.children[j] } else { n.children[j - 1] };
            assert(m.children[i] == si && m.children[j] == sj);
        }
    }
    assert forall|i: int| 0 <= i < m.children.len() implies in_display_order(
        #[trigger] m.children[i],
    ) by {
        if i < p {
            assert(m.children[i] == n.children[i]);
        } else if i > p {
            assert(m.children[i] == n.children[i - 1]);
        }
    }
}

proof fn with_update_is_in_order(n: NodeView, k: int, c: NodeView)
    requires
        in_display_order(n),
        in_display_order(c),
        0 <= k < n.children.len(),
        c.seg == n.children[k].seg,
    ensures
        in_display_order(NodeView { children: n.children.update(k, c), ..n }),
{
    let m = NodeView { children: n.children.update(k, c), ..n };
    assert forall|i: int, j: int| 0 <= i < j < m.children.len() implies !text_before(
        lowercase((#[trigger] m.children[j]).seg),
        lowercase((#[trigger] m.children[i]).seg),
        0,
    ) by {
        assert(m.children[i].seg == n.children[i].seg);
        assert(m.children[j].seg == n.children[j].seg);
    }
    assert forall|i: int| 0 <= i < m.children.len() implies in_display_order(
        #[trigger] m.children[i],
    ) by {
        if i != k {
            assert(m.children[i] == n.children[i]);
        }
    }
}

proof fn woven_is_in_order(
    n: NodeView,
    segs: Seq<Seq<char>>,
    path: Seq<char>,
    key: Seq<char>,
    line: LineView,
)
    requires
        in_display_order(n),
    ensures
        in_display_order(woven(n, segs, path, key, line)),
    decreases segs.len(),
{
    if segs.len() == 0 {
        let k = child_at(n.children, key, 0);
        child_at_bounds(n.children, key, 0);
        if k < n.children.len() {
            let c = NodeView { line: Some(line), ..n.children[k] };
            assert(in_display_order(n.children[k]));
            assert(in_display_order(c)) by {
                assert(c.children == n.children[k].children);
            }
            with_update_is_in_order(n, k, c);
        } else {
            with_child_is_in_order(n, leaf(path, key, line));
        }
    } else {
        let seg = segs[0];
        let inner = extended(path, seg);
        let k = child_at(n.children, seg, 0);
        child_at_bounds(n.children, seg, 0);
        if k < n.children.len() {
            let c = n.children[k];
            assert(in_display_order(c));
            woven_is_in_order(c, segs.skip(1), inner, key, line);
            with_update_is_in_order(n, k, woven(c, segs.skip(1), inner, key, line));
        } else {
            let c = folder(seg, inner);
            woven_is_in_order(c, segs.skip(1), inner, key, line);
            with_child_is_in_order(n, woven(c, segs.skip(1), inner, key, line));
        }
    }
}

/// In every tree that is built from lines, children are in display order: by name,
/// whatever the case.
pub proof fn built_trees_are_in_display_order(lines: Seq<LineView>, k: int)
    ensures
        in_display_order(tree_of(lines, k)),
    decreases k,
{
    if k > 0 {
        built_trees_are_in_display_order(lines, k - 1);
        let l = lines[k - 1];
        woven_is_in_order(
            tree_of(lines, k - 1),
            segments(l.file),
            Seq::empty(),
            leaf_key(l.line as nat, (k - 1) as nat),
            l,
        );
    }
}

} // verus!
