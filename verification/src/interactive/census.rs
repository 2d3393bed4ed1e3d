//! What a wholly open tree shows: every line once, the lines of a file in source
//! order.

use crate::interactive::fold::{
    are_segments, built_trees_are_in_display_order, built_trees_are_well_formed,
    child_at_bounds, children_in_order, display_position_bounds, distinct_children,
    folder_paths_step, in_display_order, node_rows_are_deep, path_extends, path_of, rows_in_step,
    segments_are_segments, slash_free, well_formed,
};
use crate::interactive::keys::{keys_sort_in_source_order, keys_tell_lines_apart, line_before};
use crate::interactive::tree::{
    child_at, display_position, extended, folder, folder_paths, leaf, leaf_key, lines_among,
    node_rows, rows_in, segments, tree_of, visible, with_child, woven, LineView, NodeView, RowView,
};
use vstd::multiset::Multiset;
use vstd::prelude::*;

verus! {

// ---------------------------------------------------------------------------
// Where lines stand
// ---------------------------------------------------------------------------

/// The key of line `b`.
pub open spec fn key_of(lines: Seq<LineView>, b: int) -> Seq<char> {
    leaf_key(lines[b].line as nat, b as nat)
}

/// Does the path of the file of line `a` lead through line `b`: does it go on, where
/// the path of that line's file ends, with a segment that is that line's key?
pub open spec fn leads_through(lines: Seq<LineView>, a: int, b: int) -> bool {
    let s = segments(lines[a].file);
    let t = segments(lines[b].file);
    s.len() > t.len() && s.take(t.len() as int) == t && s[t.len() as int] == key_of(lines, b)
}

/// Does the path of no file lead through a line?
pub open spec fn lines_are_apart_from_files(lines: Seq<LineView>) -> bool {
    forall|a: int, b: int|
        0 <= a < lines.len() && 0 <= b < lines.len() ==> !#[trigger] leads_through(lines, a, b)
}

/// Is a node the leaf of line `b`, in a file at `at`?
pub open spec fn is_leaf_of(c: NodeView, at: Seq<Seq<char>>, lines: Seq<LineView>, b: int) -> bool {
    c.line == Some(lines[b]) && c.seg == key_of(lines, b) && segments(lines[b].file) == at
}

/// Does the path of the file of line `a` start with `at`?
spec fn starts_at(lines: Seq<LineView>, a: int, at: Seq<Seq<char>>) -> bool {
    let s = segments(lines[a].file);
    s.len() >= at.len() && s.take(at.len() as int) == at
}

/// Is everything under a node at `at` there because of one of the first `k` lines?
spec fn accounted(n: NodeView, at: Seq<Seq<char>>, lines: Seq<LineView>, k: int) -> bool
    decreases n,
{
    forall|i: int|
        #![trigger n.children[i]]
        0 <= i < n.children.len() ==> {
            let c = n.children[i];
            if c.line is Some {
                exists|b: int| 0 <= b < k && #[trigger] is_leaf_of(c, at, lines, b)
            } else {
                &&& exists|a: int| 0 <= a < k && #[trigger] starts_at(lines, a, at.push(c.seg))
                &&& accounted(c, at.push(c.seg), lines, k)
            }
        }
}

/// Does nothing but folders stand in the way of a line with the given key that goes
/// under the given segments?
spec fn way_is_clear(n: NodeView, segs: Seq<Seq<char>>, key: Seq<char>) -> bool
    decreases segs.len(),
{
    if segs.len() == 0 {
        child_at(n.children, key, 0) == n.children.len()
    } else {
        let k = child_at(n.children, segs[0], 0);
        k < n.children.len() ==> n.children[k].line is None && way_is_clear(
            n.children[k],
            segs.skip(1),
            key,
        )
    }
}

proof fn accounted_still(n: NodeView, at: Seq<Seq<char>>, lines: Seq<LineView>, j: int, k: int)
    requires
        accounted(n, at, lines, j),
        j <= k,
    ensures
        accounted(n, at, lines, k),
    decreases n,
{
    assert forall|i: int| #![trigger n.children[i]] 0 <= i < n.children.len() implies {
        let c = n.children[i];
        if c.line is Some {
            exists|b: int| 0 <= b < k && #[trigger] is_leaf_of(c, at, lines, b)
        } else {
            &&& exists|a: int| 0 <= a < k && #[trigger] starts_at(lines, a, at.push(c.seg))
            &&& accounted(c, at.push(c.seg), lines, k)
        }
    } by {
        let c = n.children[i];
        if c.line is Some {
            let b = choose|b: int| 0 <= b < j && #[trigger] is_leaf_of(c, at, lines, b);
            assert(0 <= b < k && is_leaf_of(c, at, lines, b));
        } else {
            let a = choose|a: int| 0 <= a < j && #[trigger] starts_at(lines, a, at.push(c.seg));
            assert(0 <= a < k && starts_at(lines, a, at.push(c.seg)));
            accounted_still(c, at.push(c.seg), lines, j, k);
        }
    }
}

/// Where files and lines are apart, the way of the next line is clear.
proof fn next_way_is_clear(
    n: NodeView,
    at: Seq<Seq<char>>,
    lines: Seq<LineView>,
    k: int,
    segs: Seq<Seq<char>>,
)
    requires
        lines_are_apart_from_files(lines),
        0 <= k < lines.len(),
        accounted(n, at, lines, k),
        segments(lines[k].file) == at + segs,
    ensures
        way_is_clear(n, segs, key_of(lines, k)),
    decreases segs.len(),
{
    let key = key_of(lines, k);
    if segs.len() == 0 {
        let j = child_at(n.children, key, 0);
        child_at_bounds(n.children, key, 0);
        assert(at + segs =~= at);
        if j < n.children.len() {
            let c = n.children[j];
            if c.line is Some {
                let b = choose|b: int| 0 <= b < k && #[trigger] is_leaf_of(c, at, lines, b);
                keys_tell_lines_apart(
                    lines[b].line as nat,
                    b as nat,
                    lines[k].line as nat,
                    k as nat,
                );
            } else {
                let a = choose|a: int| 0 <= a < k && #[trigger] starts_at(lines, a, at.push(c.seg));
                let s = segments(lines[a].file);
                assert(s.take(at.len() as int) =~= s.take(at.len() as int + 1).take(at.len() as int));
                assert(s.take(at.len() as int) =~= at);
                assert(s[at.len() as int] == s.take(at.len() as int + 1)[at.len() as int]);
                assert(leads_through(lines, a, k));
            }
        }
    } else {
        let seg = segs[0];
        let j = child_at(n.children, seg, 0);
        child_at_bounds(n.children, seg, 0);
        if j < n.children.len() {
            let c = n.children[j];
            assert(at + segs =~= at.push(seg) + segs.skip(1));
            if c.line is Some {
                let b = choose|b: int| 0 <= b < k && #[trigger] is_leaf_of(c, at, lines, b);
                assert((at + segs).take(at.len() as int) =~= at);
                assert((at + segs)[at.len() as int] == seg);
                assert(leads_through(lines, k, b));
            } else {
                next_way_is_clear(c, at.push(seg), lines, k, segs.skip(1));
            }
        }
    }
}

proof fn with_child_is_accounted(
    n: NodeView,
    at: Seq<Seq<char>>,
    lines: Seq<LineView>,
    k: int,
    c: NodeView,
)
    requires
        accounted(n, at, lines, k),
        c.line is Some ==> exists|b: int| 0 <= b < k && #[trigger] is_leaf_of(c, at, lines, b),
        c.line is None ==> (exists|a: int|
            0 <= a < k && #[trigger] starts_at(lines, a, at.push(c.seg))) && accounted(
            c,
            at.push(c.seg),
            lines,
            k,
        ),
    ensures
        accounted(NodeView { children: with_child(n.children, c), ..n }, at, lines, k),
{
    let p = display_position(n.children, c.seg, n.children.len() as int);
    display_position_bounds(n.children, c.seg, n.children.len() as int);
    let m = NodeView { children: with_child(n.children, c), ..n };
    assert forall|i: int| #![trigger m.children[i]] 0 <= i < m.children.len() implies {
        let c = m.children[i];
        if c.line is Some {
            exists|b: int| 0 <= b < k && #[trigger] is_leaf_of(c, at, lines, b)
        } else {
            &&& exists|a: int| 0 <= a < k && #[trigger] starts_at(lines, a, at.push(c.seg))
            &&& accounted(c, at.push(c.seg), lines, k)
        }
    } by {
        if i < p {
            assert(m.children[i] == n.children[i]);
        } else if i > p {
            assert(m.children[i] == n.children[i - 1]);
        }
    }
}

proof fn with_update_is_accounted(
    n: NodeView,
    at: Seq<Seq<char>>,
    lines: Seq<LineView>,
    k: int,
    j: int,
    c: NodeView,
)
    requires
        accounted(n, at, lines, k),
        0 <= j < n.children.len(),
        c.line is None,
        exists|a: int| 0 <= a < k && #[trigger] starts_at(lines, a, at.push(c.seg)),
        accounted(c, at.push(c.seg), lines, k),
    ensures
        accounted(NodeView { children: n.children.update(j, c), ..n }, at, lines, k),
{
    let m = NodeView { children: n.children.update(j, c), ..n };
    assert forall|i: int| #![trigger m.children[i]] 0 <= i < m.children.len() implies {
        let c = m.children[i];
        if c.line is Some {
            exists|b: int| 0 <= b < k && #[trigger] is_leaf_of(c, at, lines, b)
        } else {
            &&& exists|a: int| 0 <= a < k && #[trigger] starts_at(lines, a, at.push(c.seg))
            &&& accounted(c, at.push(c.seg), lines, k)
        }
    } by {
        if i != j {
            assert(m.children[i] == n.children[i]);
        }
    }
}

proof fn woven_is_accounted(
    n: NodeView,
    at: Seq<Seq<char>>,
    lines: Seq<LineView>,
    k: int,
    segs: Seq<Seq<char>>,
    path: Seq<char>,
)
    requires
        0 <= k < lines.len(),
        accounted(n, at, lines, k + 1),
        segments(lines[k].file) == at + segs,
        way_is_clear(n, segs, key_of(lines, k)),
    ensures
        accounted(woven(n, segs, path, key_of(lines, k), lines[k]), at, lines, k + 1),
    decreases segs.len(),
{
    let key = key_of(lines, k);
    let line = lines[k];
    if segs.len() == 0 {
        assert(at + segs =~= at);
        let c = leaf(path, key, line);
        assert(is_leaf_of(c, at, lines, k));
        with_child_is_accounted(n, at, lines, k + 1, c);
    } else {
        let seg = segs[0];
        let inner = extended(path, seg);
        let j = child_at(n.children, seg, 0);
        child_at_bounds(n.children, seg, 0);
        let deeper = at.push(seg);
        assert(at + segs =~= deeper + segs.skip(1));
        assert((at + segs).take(deeper.len() as int) =~= deeper);
        assert(starts_at(lines, k, deeper));
        if j < n.children.len() {
            let c = n.children[j];
            woven_is_accounted(c, deeper, lines, k, segs.skip(1), inner);
            let d = woven(c, segs.skip(1), inner, key, line);
            assert(d.seg == seg);
            assert(starts_at(lines, k, at.push(d.seg)));
            with_update_is_accounted(n, at, lines, k + 1, j, d);
        } else {
            let c = folder(seg, inner);
            clear_in_new_folder(seg, inner, segs.skip(1), key);
            woven_is_accounted(c, deeper, lines, k, segs.skip(1), inner);
            with_child_is_accounted(
                n,
                at,
                lines,
                k + 1,
                woven(c, segs.skip(1), inner, key, line),
            );
        }
    }
}

proof fn clear_in_new_folder(
    seg: Seq<char>,
    path: Seq<char>,
    segs: Seq<Seq<char>>,
    key: Seq<char>,
)
    ensures
        way_is_clear(folder(seg, path), segs, key),
{
}

// ---------------------------------------------------------------------------
// The lines of a tree
// ---------------------------------------------------------------------------

/// The lines under the first `k` children of a node.
spec fn lines_under(n: NodeView, k: int) -> Multiset<LineView>
    decreases n, k,
{
    if k <= 0 || k > n.children.len() {
        Multiset::empty()
    } else {
        let c = n.children[k - 1];
        lines_under(n, k - 1).add(
            match c.line {
                Some(l) => Multiset::singleton(l),
                None => lines_under(c, c.children.len() as int),
            },
        )
    }
}

/// The lines of a node: its own, or those under it.
spec fn lines_at(c: NodeView) -> Multiset<LineView> {
    match c.line {
        Some(l) => Multiset::singleton(l),
        None => lines_under(c, c.children.len() as int),
    }
}

proof fn same_children_same_lines(n: NodeView, m: NodeView, k: int)
    requires
        k <= n.children.len(),
        k <= m.children.len(),
        forall|i: int| 0 <= i < k ==> #[trigger] n.children[i] == m.children[i],
    ensures
        lines_under(n, k) == lines_under(m, k),
    decreases k,
{
    if k > 0 {
        same_children_same_lines(n, m, k - 1);
        assert(n.children[k - 1] == m.children[k - 1]);
    }
}

proof fn inserted_child_adds_its_lines(n: NodeView, p: int, c: NodeView, k: int)
    requires
        0 <= p <= k <= n.children.len(),
    ensures
        lines_under(NodeView { children: n.children.insert(p, c), ..n }, k + 1) == lines_under(n, k).add(
            lines_at(c),
        ),
    decreases k,
{
    let m = NodeView { children: n.children.insert(p, c), ..n };
    if k == p {
        same_children_same_lines(n, m, k);
        assert(m.children[k] == c);
        assert(lines_under(m, k + 1) =~= lines_under(m, k).add(lines_at(c)));
    } else {
        inserted_child_adds_its_lines(n, p, c, k - 1);
        assert(m.children[k] == n.children[k - 1]);
        assert(lines_under(m, k + 1) =~= lines_under(m, k).add(lines_at(n.children[k - 1])));
        assert(lines_under(m, k + 1) =~= lines_under(n, k).add(lines_at(c)));
    }
}

proof fn updated_child_adds_a_line(n: NodeView, j: int, c: NodeView, line: LineView, k: int)
    requires
        0 <= j < k <= n.children.len(),
        lines_at(c) == lines_at(n.children[j]).insert(line),
    ensures
        lines_under(NodeView { children: n.children.update(j, c), ..n }, k) == lines_under(
            n,
            k,
        ).insert(line),
    decreases k,
{
    let m = NodeView { children: n.children.update(j, c), ..n };
    assert(lines_under(m, k) =~= lines_under(m, k - 1).add(lines_at(m.children[k - 1])));
    assert(lines_under(n, k) =~= lines_under(n, k - 1).add(lines_at(n.children[k - 1])));
    if k - 1 == j {
        same_children_same_lines(n, m, k - 1);
    } else {
        updated_child_adds_a_line(n, j, c, line, k - 1);
        assert(m.children[k - 1] == n.children[k - 1]);
    }
    assert(lines_under(m, k) =~= lines_under(n, k).insert(line));
}

proof fn woven_adds_the_line(
    n: NodeView,
    segs: Seq<Seq<char>>,
    path: Seq<char>,
    key: Seq<char>,
    line: LineView,
)
    requires
        way_is_clear(n, segs, key),
    ensures
        ({
            let m = woven(n, segs, path, key, line);
            lines_under(m, m.children.len() as int) == lines_under(
                n,
                n.children.len() as int,
            ).insert(line)
        }),
    decreases segs.len(),
{
    let len = n.children.len() as int;
    if segs.len() == 0 {
        let c = leaf(path, key, line);
        display_position_bounds(n.children, c.seg, len);
        inserted_child_adds_its_lines(n, display_position(n.children, c.seg, len), c, len);
        assert(lines_under(n, len).add(lines_at(c)) =~= lines_under(n, len).insert(line));
    } else {
        let seg = segs[0];
        let inner = extended(path, seg);
        let j = child_at(n.children, seg, 0);
        child_at_bounds(n.children, seg, 0);
        if j < len {
            let c = n.children[j];
            woven_adds_the_line(c, segs.skip(1), inner, key, line);
            updated_child_adds_a_line(n, j, woven(c, segs.skip(1), inner, key, line), line, len);
        } else {
            let c = folder(seg, inner);
            clear_in_new_folder(seg, inner, segs.skip(1), key);
            woven_adds_the_line(c, segs.skip(1), inner, key, line);
            let d = woven(c, segs.skip(1), inner, key, line);
            display_position_bounds(n.children, d.seg, len);
            inserted_child_adds_its_lines(n, display_position(n.children, d.seg, len), d, len);
            assert(lines_under(c, 0) =~= Multiset::empty());
            assert(lines_under(n, len).add(lines_at(d)) =~= lines_under(n, len).insert(line));
        }
    }
}

proof fn tree_holds_every_line(lines: Seq<LineView>, k: int)
    requires
        lines_are_apart_from_files(lines),
        0 <= k <= lines.len(),
    ensures
        ({
            let t = tree_of(lines, k);
            &&& accounted(t, Seq::empty(), lines, k)
            &&& lines_under(t, t.children.len() as int) == lines.take(k).to_multiset()
        }),
    decreases k,
{
    let none = Seq::<Seq<char>>::empty();
    if k == 0 {
        assert(lines.take(0) =~= Seq::empty());
        lines.take(0).to_multiset_ensures();
        assert(lines.take(0).to_multiset() =~= Multiset::empty());
    } else {
        tree_holds_every_line(lines, k - 1);
        let l = lines[k - 1];
        let before = tree_of(lines, k - 1);
        let segs = segments(l.file);
        assert(none + segs =~= segs);
        next_way_is_clear(before, none, lines, k - 1, segs);
        accounted_still(before, none, lines, k - 1, k);
        woven_is_accounted(before, none, lines, k - 1, segs, Seq::empty());
        woven_adds_the_line(before, segs, Seq::empty(), key_of(lines, k - 1), l);
        assert(lines.take(k) =~= lines.take(k - 1).push(l));
        vstd::seq_lib::to_multiset_build(lines.take(k - 1), l);
    }
}

// ---------------------------------------------------------------------------
// The lines of rows
// ---------------------------------------------------------------------------

/// The lines of the rows before `k`, in order.
pub open spec fn shown_lines(rows: Seq<RowView>, k: int) -> Seq<LineView>
    decreases k,
{
    if k <= 0 {
        Seq::empty()
    } else if rows[k - 1].is_folder {
        shown_lines(rows, k - 1)
    } else {
        shown_lines(rows, k - 1).push(rows[k - 1].line->0)
    }
}

/// Can everything under a node whose children are at `depth` be shown?
spec fn depth_fits(n: NodeView, depth: int) -> bool
    decreases n,
{
    forall|i: int|
        0 <= i < n.children.len() && (#[trigger] n.children[i]).line is None ==> depth < usize::MAX
            && depth_fits(n.children[i], depth + 1)
}

proof fn woven_fits(
    n: NodeView,
    segs: Seq<Seq<char>>,
    path: Seq<char>,
    key: Seq<char>,
    line: LineView,
    depth: int,
)
    requires
        depth_fits(n, depth),
        depth + segs.len() <= usize::MAX,
    ensures
        depth_fits(woven(n, segs, path, key, line), depth),
    decreases segs.len(),
{
    let m = woven(n, segs, path, key, line);
    let len = n.children.len() as int;
    let seg = if segs.len() == 0 { key } else { segs[0] };
    let inner = extended(path, seg);
    let j = child_at(n.children, seg, 0);
    child_at_bounds(n.children, seg, 0);
    let c = if j < len { n.children[j] } else { folder(seg, inner) };
    if segs.len() > 0 && (j >= len || c.line is None) {
        woven_fits(c, segs.skip(1), inner, key, line, depth + 1);
    }
    let p = display_position(n.children, seg, len);
    display_position_bounds(n.children, seg, len);
    assert forall|i: int|
        0 <= i < m.children.len() && (#[trigger] m.children[i]).line is None implies depth
        < usize::MAX && depth_fits(m.children[i], depth + 1) by {
        if j < len {
            if i != j {
                assert(m.children[i] == n.children[i]);
            }
        } else if i < p {
            assert(m.children[i] == n.children[i]);
        } else if i > p {
            assert(m.children[i] == n.children[i - 1]);
        }
    }
}

proof fn tree_fits(lines: Seq<LineView>, k: int)
    requires
        0 <= k <= lines.len(),
        forall|i: int|
            0 <= i < lines.len() ==> segments((#[trigger] lines[i]).file).len() <= usize::MAX,
    ensures
        depth_fits(tree_of(lines, k), 0),
    decreases k,
{
    if k > 0 {
        tree_fits(lines, k - 1);
        let l = lines[k - 1];
        woven_fits(
            tree_of(lines, k - 1),
            segments(l.file),
            Seq::empty(),
            key_of(lines, k - 1),
            l,
            0,
        );
    }
}

proof fn shown_lines_split(a: Seq<RowView>, b: Seq<RowView>, k: int)
    requires
        0 <= k <= b.len(),
    ensures
        shown_lines(a + b, a.len() + k) == shown_lines(a, a.len() as int) + shown_lines(b, k),
    decreases k,
{
    if k > 0 {
        shown_lines_split(a, b, k - 1);
        assert((a + b)[a.len() + k - 1] == b[k - 1]);
        assert(shown_lines(a + b, a.len() + k) =~= shown_lines(a, a.len() as int) + shown_lines(
            b,
            k,
        ));
    } else {
        shown_lines_agree(a + b, a, a.len() as int);
        assert(shown_lines(a, a.len() as int) + shown_lines(b, k) =~= shown_lines(
            a,
            a.len() as int,
        ));
    }
}

proof fn shown_lines_agree(a: Seq<RowView>, b: Seq<RowView>, k: int)
    requires
        k <= a.len(),
        k <= b.len(),
        forall|i: int|
            0 <= i < k ==> (#[trigger] a[i]).is_folder == b[i].is_folder && a[i].line == b[i].line,
    ensures
        shown_lines(a, k) == shown_lines(b, k),
    decreases k,
{
    if k > 0 {
        shown_lines_agree(a, b, k - 1);
        assert(a[k - 1].is_folder == b[k - 1].is_folder);
    }
}

proof fn shown_lines_are_counted(rows: Seq<RowView>, k: int)
    requires
        0 <= k,
    ensures
        shown_lines(rows, k).len() == lines_among(rows, k),
    decreases k,
{
    if k > 0 {
        shown_lines_are_counted(rows, k - 1);
    }
}

proof fn open_rows_show_lines(n: NodeView, depth: int, expanded: Set<Seq<char>>, k: int)
    requires
        0 <= k <= n.children.len(),
        depth_fits(n, depth),
        folder_paths(n, k).subset_of(expanded),
    ensures
        ({
            let rows = rows_in(n, depth, expanded, k);
            shown_lines(rows, rows.len() as int).to_multiset() == lines_under(n, k)
        }),
    decreases n, k,
{
    let rows = rows_in(n, depth, expanded, k);
    let none = Seq::<LineView>::empty();
    none.to_multiset_ensures();
    assert(none.to_multiset() =~= Multiset::empty());
    if k > 0 {
        rows_in_step(n, depth, expanded, k);
        folder_paths_step(n, k);
        let c = n.children[k - 1];
        let before = rows_in(n, depth, expanded, k - 1);
        let more = node_rows(c, depth, expanded);
        assert(folder_paths(n, k - 1).subset_of(expanded)) by {
            assert forall|p: Seq<char>| #[trigger] folder_paths(n, k - 1).contains(p) implies expanded.contains(
                p,
            ) by {
                assert(folder_paths(n, k).contains(p));
            }
        }
        open_rows_show_lines(n, depth, expanded, k - 1);
        shown_lines_split(before, more, more.len() as int);
        vstd::seq_lib::lemma_multiset_commutative(
            shown_lines(before, before.len() as int),
            shown_lines(more, more.len() as int),
        );
        if c.line is Some {
            assert(shown_lines(more, 0) =~= none);
            assert(shown_lines(more, 1) =~= none.push(c.line->0));
            vstd::seq_lib::to_multiset_build(none, c.line->0);
            assert(shown_lines(more, 1).to_multiset() =~= lines_at(c));
        } else {
            let len = c.children.len() as int;
            assert(folder_paths(n, k).contains(c.path));
            assert(folder_paths(c, len).subset_of(expanded)) by {
                assert forall|p: Seq<char>| #[trigger] folder_paths(c, len).contains(p) implies expanded.contains(
                    p,
                ) by {
                    assert(folder_paths(n, k).contains(p));
                }
            }
            open_rows_show_lines(c, depth + 1, expanded, len);
            let inner = rows_in(c, depth + 1, expanded, len);
            let first = more.take(1);
            assert(more =~= first + inner);
            shown_lines_split(first, inner, inner.len() as int);
            assert(shown_lines(first, 0) =~= none);
            assert(shown_lines(first, 1) =~= none);
            assert(none + shown_lines(inner, inner.len() as int) =~= shown_lines(
                inner,
                inner.len() as int,
            ));
        }
    }
}

/// With every folder open, the rows show every line, each exactly once: as often as it
/// was given. The line rows are as many as the lines, so the jump numbers run from one
/// to the number of lines.
///
/// Left out are lines of which one stands where the path of another's file leads
/// through: one of them then hides the other. Nor may a path have more segments than
/// can be counted.
pub proof fn open_trees_show_every_line(lines: Seq<LineView>, expanded: Set<Seq<char>>)
    requires
        lines_are_apart_from_files(lines),
        forall|i: int|
            0 <= i < lines.len() ==> segments((#[trigger] lines[i]).file).len() <= usize::MAX,
        ({
            let t = tree_of(lines, lines.len() as int);
            folder_paths(t, t.children.len() as int).subset_of(expanded)
        }),
    ensures
        ({
            let rows = visible(tree_of(lines, lines.len() as int), expanded);
            let n = rows.len() as int;
            &&& shown_lines(rows, n).to_multiset() == lines.to_multiset()
            &&& lines_among(rows, n) == lines.len()
        }),
{
    let t = tree_of(lines, lines.len() as int);
    let k = t.children.len() as int;
    let plain = rows_in(t, 0, expanded, k);
    let rows = visible(t, expanded);
    let n = rows.len() as int;
    tree_holds_every_line(lines, lines.len() as int);
    tree_fits(lines, lines.len() as int);
    open_rows_show_lines(t, 0, expanded, k);
    assert forall|i: int| 0 <= i < n implies (#[trigger] rows[i]).is_folder == plain[i].is_folder
        && rows[i].line == plain[i].line by {}
    shown_lines_agree(rows, plain, n);
    shown_lines_are_counted(rows, n);
    assert(lines.take(lines.len() as int) =~= lines);
    shown_lines(rows, n).to_multiset_ensures();
    lines.to_multiset_ensures();
}

// ---------------------------------------------------------------------------
// Folded trees
// ---------------------------------------------------------------------------

/// Is every folder on the way from `at` down the given segments open?
pub open spec fn is_open_down(
    at: Seq<Seq<char>>,
    segs: Seq<Seq<char>>,
    expanded: Set<Seq<char>>,
) -> bool {
    forall|d: int|
        1 <= d <= segs.len() ==> expanded.contains(path_of(at + #[trigger] segs.take(d)))
}

/// The lines under the first `k` children of a node, but for those in closed folders.
spec fn open_under(n: NodeView, expanded: Set<Seq<char>>, k: int) -> Multiset<LineView>
    decreases n, k,
{
    if k <= 0 || k > n.children.len() {
        Multiset::empty()
    } else {
        let c = n.children[k - 1];
        open_under(n, expanded, k - 1).add(
            match c.line {
                Some(l) => Multiset::singleton(l),
                None => if expanded.contains(c.path) {
                    open_under(c, expanded, c.children.len() as int)
                } else {
                    Multiset::empty()
                },
            },
        )
    }
}

/// What a node shows.
spec fn open_at(c: NodeView, expanded: Set<Seq<char>>) -> Multiset<LineView> {
    match c.line {
        Some(l) => Multiset::singleton(l),
        None => if expanded.contains(c.path) {
            open_under(c, expanded, c.children.len() as int)
        } else {
            Multiset::empty()
        },
    }
}

proof fn same_children_open_alike(n: NodeView, m: NodeView, expanded: Set<Seq<char>>, k: int)
    requires
        k <= n.children.len(),
        k <= m.children.len(),
        forall|i: int| 0 <= i < k ==> #[trigger] n.children[i] == m.children[i],
    ensures
        open_under(n, expanded, k) == open_under(m, expanded, k),
    decreases k,
{
    if k > 0 {
        same_children_open_alike(n, m, expanded, k - 1);
        assert(n.children[k - 1] == m.children[k - 1]);
    }
}

proof fn inserted_child_shows(n: NodeView, p: int, c: NodeView, expanded: Set<Seq<char>>, k: int)
    requires
        0 <= p <= k <= n.children.len(),
    ensures
        open_under(NodeView { children: n.children.insert(p, c), ..n }, expanded, k + 1)
            == open_under(n, expanded, k).add(open_at(c, expanded)),
    decreases k,
{
    let m = NodeView { children: n.children.insert(p, c), ..n };
    if k == p {
        same_children_open_alike(n, m, expanded, k);
        assert(m.children[k] == c);
        assert(open_under(m, expanded, k + 1) =~= open_under(m, expanded, k).add(
            open_at(c, expanded),
        ));
    } else {
        inserted_child_shows(n, p, c, expanded, k - 1);
        assert(m.children[k] == n.children[k - 1]);
        assert(open_under(m, expanded, k + 1) =~= open_under(m, expanded, k).add(
            open_at(n.children[k - 1], expanded),
        ));
        assert(open_under(m, expanded, k + 1) =~= open_under(n, expanded, k).add(
            open_at(c, expanded),
        ));
    }
}

proof fn updated_child_shows(
    n: NodeView,
    j: int,
    c: NodeView,
    extra: Multiset<LineView>,
    expanded: Set<Seq<char>>,
    k: int,
)
    requires
        0 <= j < k <= n.children.len(),
        open_at(c, expanded) == open_at(n.children[j], expanded).add(extra),
    ensures
        open_under(NodeView { children: n.children.update(j, c), ..n }, expanded, k) == open_under(
            n,
            expanded,
            k,
        ).add(extra),
    decreases k,
{
    let m = NodeView { children: n.children.update(j, c), ..n };
    assert(open_under(m, expanded, k) =~= open_under(m, expanded, k - 1).add(
        open_at(m.children[k - 1], expanded),
    ));
    assert(open_under(n, expanded, k) =~= open_under(n, expanded, k - 1).add(
        open_at(n.children[k - 1], expanded),
    ));
    if k - 1 == j {
        same_children_open_alike(n, m, expanded, k - 1);
    } else {
        updated_child_shows(n, j, c, extra, expanded, k - 1);
        assert(m.children[k - 1] == n.children[k - 1]);
    }
    assert(open_under(m, expanded, k) =~= open_under(n, expanded, k).add(extra));
}

/// The line, if it is shown.
spec fn if_shown(line: LineView, shown: bool) -> Multiset<LineView> {
    if shown {
        Multiset::singleton(line)
    } else {
        Multiset::empty()
    }
}

proof fn open_down_steps(at: Seq<Seq<char>>, segs: Seq<Seq<char>>, expanded: Set<Seq<char>>)
    requires
        segs.len() > 0,
    ensures
        is_open_down(at, segs, expanded) <==> expanded.contains(path_of(at.push(segs[0])))
            && is_open_down(at.push(segs[0]), segs.skip(1), expanded),
{
    let rest = segs.skip(1);
    let deeper = at.push(segs[0]);
    assert(at + segs.take(1) =~= deeper);
    if is_open_down(at, segs, expanded) {
        assert(expanded.contains(path_of(at + segs.take(1))));
        assert forall|d: int| 1 <= d <= rest.len() implies expanded.contains(
            path_of(deeper + #[trigger] rest.take(d)),
        ) by {
            assert(deeper + rest.take(d) =~= at + segs.take(d + 1));
            assert(expanded.contains(path_of(at + segs.take(d + 1))));
        }
    }
    if expanded.contains(path_of(deeper)) && is_open_down(deeper, rest, expanded) {
        assert forall|d: int| 1 <= d <= segs.len() implies expanded.contains(
            path_of(at + #[trigger] segs.take(d)),
        ) by {
            if d > 1 {
                assert(at + segs.take(d) =~= deeper + rest.take(d - 1));
                assert(expanded.contains(path_of(deeper + rest.take(d - 1))));
            }
        }
    }
}

proof fn woven_shows_the_line(
    n: NodeView,
    at: Seq<Seq<char>>,
    segs: Seq<Seq<char>>,
    key: Seq<char>,
    line: LineView,
    expanded: Set<Seq<char>>,
)
    requires
        way_is_clear(n, segs, key),
        well_formed(n, at),
        are_segments(at),
        are_segments(segs),
    ensures
        ({
            let m = woven(n, segs, path_of(at), key, line);
            open_under(m, expanded, m.children.len() as int) == open_under(
                n,
                expanded,
                n.children.len() as int,
            ).add(if_shown(line, is_open_down(at, segs, expanded)))
        }),
    decreases segs.len(),
{
    let len = n.children.len() as int;
    let path = path_of(at);
    if segs.len() == 0 {
        let c = leaf(path, key, line);
        display_position_bounds(n.children, c.seg, len);
        inserted_child_shows(n, display_position(n.children, c.seg, len), c, expanded, len);
        assert(is_open_down(at, segs, expanded));
    } else {
        let seg = segs[0];
        let inner = extended(path, seg);
        let deeper = at.push(seg);
        let rest = segs.skip(1);
        let j = child_at(n.children, seg, 0);
        child_at_bounds(n.children, seg, 0);
        path_extends(at, seg);
        open_down_steps(at, segs, expanded);
        assert(are_segments(deeper));
        assert forall|i: int| 0 <= i < rest.len() implies (#[trigger] rest[i]).len() > 0
            && slash_free(rest[i]) by {
            assert(rest[i] == segs[i + 1]);
        }
        let extra = if_shown(line, is_open_down(at, segs, expanded));
        if j < len {
            let c = n.children[j];
            woven_shows_the_line(c, deeper, rest, key, line, expanded);
            let d = woven(c, rest, inner, key, line);
            assert(d.path == c.path && c.path == path_of(deeper));
            assert(open_at(d, expanded) =~= open_at(c, expanded).add(extra));
            updated_child_shows(n, j, d, extra, expanded, len);
        } else {
            let c = folder(seg, inner);
            clear_in_new_folder(seg, inner, rest, key);
            woven_shows_the_line(c, deeper, rest, key, line, expanded);
            let d = woven(c, rest, inner, key, line);
            display_position_bounds(n.children, d.seg, len);
            inserted_child_shows(n, display_position(n.children, d.seg, len), d, expanded, len);
            assert(open_under(c, expanded, 0) =~= Multiset::empty());
            assert(open_at(d, expanded) =~= extra);
        }
    }
}

/// The lines whose folders are all open.
pub open spec fn lines_in_open_folders(lines: Seq<LineView>, expanded: Set<Seq<char>>) -> Seq<
    LineView,
> {
    lines.filter(|l: LineView| is_open_down(Seq::empty(), segments(l.file), expanded))
}

proof fn tree_shows_open_lines(lines: Seq<LineView>, expanded: Set<Seq<char>>, k: int)
    requires
        lines_are_apart_from_files(lines),
        0 <= k <= lines.len(),
    ensures
        ({
            let t = tree_of(lines, k);
            open_under(t, expanded, t.children.len() as int) == lines_in_open_folders(
                lines.take(k),
                expanded,
            ).to_multiset()
        }),
    decreases k,
{
    reveal(Seq::filter);
    let none = Seq::<Seq<char>>::empty();
    let pick = |l: LineView| is_open_down(Seq::empty(), segments(l.file), expanded);
    if k == 0 {
        assert(lines.take(0) =~= Seq::empty());
        let empty = lines.take(0).filter(pick);
        assert(empty =~= Seq::empty());
        empty.to_multiset_ensures();
        assert(empty.to_multiset() =~= Multiset::empty());
    } else {
        tree_shows_open_lines(lines, expanded, k - 1);
        tree_holds_every_line(lines, k - 1);
        built_trees_are_well_formed(lines, k - 1);
        let l = lines[k - 1];
        let before = tree_of(lines, k - 1);
        let segs = segments(l.file);
        segments_are_segments(l.file);
        assert(none + segs =~= segs);
        assert(path_of(none) =~= Seq::<char>::empty());
        next_way_is_clear(before, none, lines, k - 1, segs);
        woven_shows_the_line(before, none, segs, key_of(lines, k - 1), l, expanded);
        assert(lines.take(k).drop_last() =~= lines.take(k - 1));
        assert(lines.take(k).last() == l);
        let shown = lines.take(k - 1).filter(pick);
        if pick(l) {
            vstd::seq_lib::to_multiset_build(shown, l);
        }
        assert(lines.take(k).filter(pick).to_multiset() =~= shown.to_multiset().add(
            if_shown(l, pick(l)),
        ));
    }
}

proof fn rows_show_open_lines(n: NodeView, depth: int, expanded: Set<Seq<char>>, k: int)
    requires
        0 <= k <= n.children.len(),
        depth_fits(n, depth),
    ensures
        ({
            let rows = rows_in(n, depth, expanded, k);
            shown_lines(rows, rows.len() as int).to_multiset() == open_under(n, expanded, k)
        }),
    decreases n, k,
{
    let rows = rows_in(n, depth, expanded, k);
    let none = Seq::<LineView>::empty();
    none.to_multiset_ensures();
    assert(none.to_multiset() =~= Multiset::empty());
    if k > 0 {
        rows_in_step(n, depth, expanded, k);
        let c = n.children[k - 1];
        let before = rows_in(n, depth, expanded, k - 1);
        let more = node_rows(c, depth, expanded);
        rows_show_open_lines(n, depth, expanded, k - 1);
        shown_lines_split(before, more, more.len() as int);
        vstd::seq_lib::lemma_multiset_commutative(
            shown_lines(before, before.len() as int),
            shown_lines(more, more.len() as int),
        );
        if c.line is Some {
            assert(shown_lines(more, 0) =~= none);
            assert(shown_lines(more, 1) =~= none.push(c.line->0));
            vstd::seq_lib::to_multiset_build(none, c.line->0);
            assert(shown_lines(more, 1).to_multiset() =~= open_at(c, expanded));
        } else if expanded.contains(c.path) {
            let len = c.children.len() as int;
            rows_show_open_lines(c, depth + 1, expanded, len);
            let inner = rows_in(c, depth + 1, expanded, len);
            let first = more.take(1);
            assert(more =~= first + inner);
            shown_lines_split(first, inner, inner.len() as int);
            assert(shown_lines(first, 0) =~= none);
            assert(shown_lines(first, 1) =~= none);
            assert(none + shown_lines(inner, inner.len() as int) =~= shown_lines(
                inner,
                inner.len() as int,
            ));
        } else {
            assert(shown_lines(more, 0) =~= none);
            assert(shown_lines(more, 1) =~= none);
        }
    }
}

/// Whatever is open, the rows show the lines whose folders are all open, each exactly as
/// often as it was given, and no others.
///
/// Left out are lines of which one stands where the path of another's file leads
/// through, and paths with more segments than can be counted.
pub proof fn trees_show_what_is_open(lines: Seq<LineView>, expanded: Set<Seq<char>>)
    requires
        lines_are_apart_from_files(lines),
        forall|i: int|
            0 <= i < lines.len() ==> segments((#[trigger] lines[i]).file).len() <= usize::MAX,
    ensures
        ({
            let rows = visible(tree_of(lines, lines.len() as int), expanded);
            shown_lines(rows, rows.len() as int).to_multiset() == lines_in_open_folders(
                lines,
                expanded,
            ).to_multiset()
        }),
{
    let t = tree_of(lines, lines.len() as int);
    let k = t.children.len() as int;
    let plain = rows_in(t, 0, expanded, k);
    let rows = visible(t, expanded);
    let n = rows.len() as int;
    tree_shows_open_lines(lines, expanded, lines.len() as int);
    tree_fits(lines, lines.len() as int);
    rows_show_open_lines(t, 0, expanded, k);
    assert forall|i: int| 0 <= i < n implies (#[trigger] rows[i]).is_folder == plain[i].is_folder
        && rows[i].line == plain[i].line by {}
    shown_lines_agree(rows, plain, n);
    assert(lines.take(lines.len() as int) =~= lines);
}

// ---------------------------------------------------------------------------
// Source order
// ---------------------------------------------------------------------------

/// Are two rows beside each other in one folder: equally deep, with nothing less deep
/// between them?
pub open spec fn side_by_side(rows: Seq<RowView>, i: int, j: int) -> bool {
    &&& rows[i].depth == rows[j].depth
    &&& forall|m: int| i < m < j ==> (#[trigger] rows[m]).depth >= rows[i].depth
}

/// Are two rows those of lines `a` and `b`, which are of one file, and does the first
/// line come before the other: by number, then as it was given?
pub open spec fn in_source_order(
    x: RowView,
    y: RowView,
    lines: Seq<LineView>,
    a: int,
    b: int,
) -> bool {
    &&& x.line == Some(lines[a])
    &&& y.line == Some(lines[b])
    &&& segments(lines[a].file) == segments(lines[b].file)
    &&& line_before(lines[a].line as nat, a as nat, lines[b].line as nat, b as nat)
}

proof fn shallow_line_is_a_child(
    n: NodeView,
    depth: int,
    expanded: Set<Seq<char>>,
    k: int,
    i: int,
) -> (x: int)
    requires
        0 <= k <= n.children.len(),
        0 <= depth <= usize::MAX,
        0 <= i < rows_in(n, depth, expanded, k).len(),
        rows_in(n, depth, expanded, k)[i].depth == depth,
        !rows_in(n, depth, expanded, k)[i].is_folder,
    ensures
        0 <= x < k,
        n.children[x].line is Some,
        n.children[x].line == rows_in(n, depth, expanded, k)[i].line,
    decreases k,
{
    rows_in_step(n, depth, expanded, k);
    node_rows_are_deep(n, depth, expanded, k);
    let before = rows_in(n, depth, expanded, k - 1);
    let more = node_rows(n.children[k - 1], depth, expanded);
    let row = rows_in(n, depth, expanded, k)[i];
    if i < before.len() {
        assert(row == before[i]);
        shallow_line_is_a_child(n, depth, expanded, k - 1, i)
    } else {
        assert(row == more[i - before.len()]);
        k - 1
    }
}

proof fn leaves_are_in_source_order(
    n: NodeView,
    at: Seq<Seq<char>>,
    lines: Seq<LineView>,
    x: int,
    y: int,
) -> (r: (int, int))
    requires
        accounted(n, at, lines, lines.len() as int),
        lines.len() < 100000000,
        distinct_children(n),
        children_in_order(n),
        0 <= x < y < n.children.len(),
        n.children[x].line is Some,
        n.children[y].line is Some,
    ensures
        0 <= r.0 < lines.len(),
        0 <= r.1 < lines.len(),
        is_leaf_of(n.children[x], at, lines, r.0),
        is_leaf_of(n.children[y], at, lines, r.1),
        line_before(lines[r.0].line as nat, r.0 as nat, lines[r.1].line as nat, r.1 as nat),
{
    let c = n.children[x];
    let d = n.children[y];
    let a = choose|a: int| 0 <= a < lines.len() && #[trigger] is_leaf_of(c, at, lines, a);
    let b = choose|b: int| 0 <= b < lines.len() && #[trigger] is_leaf_of(d, at, lines, b);
    assert(c.seg != d.seg);
    if !line_before(lines[a].line as nat, a as nat, lines[b].line as nat, b as nat) {
        assert(a != b);
        keys_sort_in_source_order(
            lines[b].line as nat,
            b as nat,
            lines[a].line as nat,
            a as nat,
        );
    }
    (a, b)
}

proof fn sibling_lines_are_in_source_order(
    n: NodeView,
    at: Seq<Seq<char>>,
    lines: Seq<LineView>,
    depth: int,
    expanded: Set<Seq<char>>,
    k: int,
    i: int,
    j: int,
)
    requires
        accounted(n, at, lines, lines.len() as int),
        lines.len() < 100000000,
        well_formed(n, at),
        in_display_order(n),
        0 <= depth <= usize::MAX,
        0 <= k <= n.children.len(),
        0 <= i < j < rows_in(n, depth, expanded, k).len(),
        !rows_in(n, depth, expanded, k)[i].is_folder,
        !rows_in(n, depth, expanded, k)[j].is_folder,
        side_by_side(rows_in(n, depth, expanded, k), i, j),
    ensures
        exists|a: int, b: int|
            0 <= a < lines.len() && 0 <= b < lines.len() && #[trigger] in_source_order(
                rows_in(n, depth, expanded, k)[i],
                rows_in(n, depth, expanded, k)[j],
                lines,
                a,
                b,
            ),
    decreases n, k,
{
    let rows = rows_in(n, depth, expanded, k);
    rows_in_step(n, depth, expanded, k);
    node_rows_are_deep(n, depth, expanded, k);
    let c = n.children[k - 1];
    let before = rows_in(n, depth, expanded, k - 1);
    let more = node_rows(c, depth, expanded);
    let z = before.len() as int;
    if j < z {
        assert(rows[i] == before[i] && rows[j] == before[j]);
        assert(side_by_side(before, i, j)) by {
            assert forall|m: int| i < m < j implies (#[trigger] before[m]).depth
                >= before[i].depth by {
                assert(rows[m] == before[m]);
            }
        }
        sibling_lines_are_in_source_order(n, at, lines, depth, expanded, k - 1, i, j);
    } else if i < z {
        assert(rows[i] == before[i]);
        assert(rows[j] == more[j - z]);
        if j > z {
            assert(rows[z] == more[0]);
            assert(rows[z].depth >= rows[i].depth);
            assert(more[j - z].depth > depth);
        }
        assert(rows[j].depth == depth);
        assert(c.line is Some);
        let x = shallow_line_is_a_child(n, depth, expanded, k - 1, i);
        let (a, b) = leaves_are_in_source_order(n, at, lines, x, k - 1);
        assert(in_source_order(rows[i], rows[j], lines, a, b));
    } else {
        let inner = rows_in(c, depth + 1, expanded, c.children.len() as int);
        assert(rows[i] == more[i - z]);
        assert(rows[j] == more[j - z]);
        assert(c.line is None && expanded.contains(c.path) && depth < usize::MAX);
        assert(i > z);
        assert(rows[i] == inner[i - z - 1]);
        assert(rows[j] == inner[j - z - 1]);
        assert(side_by_side(inner, i - z - 1, j - z - 1)) by {
            assert forall|m: int| i - z - 1 < m < j - z - 1 implies (#[trigger] inner[m]).depth
                >= inner[i - z - 1].depth by {
                assert(rows[m + z + 1] == inner[m]);
            }
        }
        assert(in_display_order(n.children[k - 1]));
        sibling_lines_are_in_source_order(
            c,
            at.push(c.seg),
            lines,
            depth + 1,
            expanded,
            c.children.len() as int,
            i - z - 1,
            j - z - 1,
        );
    }
}

/// Whatever is open, lines side by side are of one file and in source order: by number,
/// and those with one number as they were given.
///
/// Left out are lines of which one stands where the path of another's file leads
/// through, and more lines than their keys have digits for.
pub proof fn lines_of_a_file_are_in_source_order(
    lines: Seq<LineView>,
    expanded: Set<Seq<char>>,
    i: int,
    j: int,
)
    requires
        lines_are_apart_from_files(lines),
        lines.len() < 100000000,
        ({
            let rows = visible(tree_of(lines, lines.len() as int), expanded);
            &&& 0 <= i < j < rows.len()
            &&& !rows[i].is_folder
            &&& !rows[j].is_folder
            &&& side_by_side(rows, i, j)
        }),
    ensures
        ({
            let rows = visible(tree_of(lines, lines.len() as int), expanded);
            exists|a: int, b: int|
                0 <= a < lines.len() && 0 <= b < lines.len() && #[trigger] in_source_order(
                    rows[i],
                    rows[j],
                    lines,
                    a,
                    b,
                )
        }),
{
    let t = tree_of(lines, lines.len() as int);
    let k = t.children.len() as int;
    let none = Seq::<Seq<char>>::empty();
    let plain = rows_in(t, 0, expanded, k);
    let rows = visible(t, expanded);
    tree_holds_every_line(lines, lines.len() as int);
    built_trees_are_well_formed(lines, lines.len() as int);
    built_trees_are_in_display_order(lines, lines.len() as int);
    assert(side_by_side(plain, i, j)) by {
        assert forall|m: int| i < m < j implies (#[trigger] plain[m]).depth >= plain[i].depth by {
            assert(rows[m].depth == plain[m].depth);
        }
    }
    sibling_lines_are_in_source_order(t, none, lines, 0, expanded, k, i, j);
    let (a, b) = choose|a: int, b: int|
        0 <= a < lines.len() && 0 <= b < lines.len() && #[trigger] in_source_order(
            plain[i],
            plain[j],
            lines,
            a,
            b,
        );
    assert(in_source_order(rows[i], rows[j], lines, a, b));
}

} // verus!
