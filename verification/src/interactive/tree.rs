//! The tree of folders, files and lines, and its flattening into rows.
//!
//! Directories and files nest by path segment; the lines of a file are its
//! leaves.

use crate::names::NameSet;
use crate::text::{
    chars_of, clone_opt, comes_before, concat, decimal, decimal_of, is_empty, lowercase,
    opt_view, pad_left, padded, pieces, same_str, split, text_before,
    to_lowercase, views,
};
use vstd::prelude::*;
use vstd::string::*;

verus! {

/// One source line of the tree. `anchor` marks the first line of a hit, which
/// carries the label.
#[derive(Debug)]
pub struct Line {
    pub file: String,
    pub line: usize,
    pub text: String,
    pub anchor: bool,
    pub label: Option<String>,
}

/// The mathematical value of a [`Line`].
pub struct LineView {
    pub file: Seq<char>,
    pub line: usize,
    pub text: Seq<char>,
    pub anchor: bool,
    pub label: Option<Seq<char>>,
}

impl View for Line {
    type V = LineView;

    open spec fn view(&self) -> LineView {
        LineView {
            file: self.file@,
            line: self.line,
            text: self.text@,
            anchor: self.anchor,
            label: opt_view(self.label),
        }
    }
}

impl Clone for Line {
    fn clone(&self) -> (r: Line)
        ensures
            r@ == self@,
    {
        Line {
            file: self.file.clone(),
            line: self.line,
            text: self.text.clone(),
            anchor: self.anchor,
            label: clone_opt(&self.label),
        }
    }
}

/// A folder, that is a directory or a file, or the leaf of a line. The children of
/// a node have distinct segments and come in display order.
pub struct Node {
    pub seg: String,
    pub path: String,
    pub children: Vec<Node>,
    pub line: Option<Line>,
}

/// The mathematical value of a [`Node`].
pub struct NodeView {
    pub seg: Seq<char>,
    pub path: Seq<char>,
    pub children: Seq<NodeView>,
    pub line: Option<LineView>,
}

impl View for Node {
    type V = NodeView;

    open spec fn view(&self) -> NodeView {
        node_view(*self)
    }
}

pub open spec fn node_view(n: Node) -> NodeView
    decreases n,
{
    NodeView {
        seg: n.seg@,
        path: n.path@,
        children: Seq::new(
            n.children@.len(),
            |i: int|
                if 0 <= i < n.children@.len() {
                    node_view(n.children@[i])
                } else {
                    arbitrary()
                },
        ),
        line: opt_view(n.line),
    }
}

proof fn children_view(n: Node)
    ensures
        n@.children == views(n.children@),
{
    assert(n@.children =~= views(n.children@));
}

impl Node {
    /// A folder with nothing in it.
    fn new(seg: &str, path: &str) -> (r: Node)
        ensures
            r@ == folder(seg@, path@),
    {
        let r = Node {
            seg: seg.to_owned(),
            path: path.to_owned(),
            children: Vec::new(),
            line: None,
        };
        assert(r@.children =~= Seq::empty());
        r
    }

    /// Is this node a file rather than a directory: are its children lines?
    pub fn is_file_node(&self) -> (r: bool)
        ensures
            r == holds_lines(self@),
    {
        proof {
            children_view(*self);
        }
        if self.children.len() == 0 {
            return false;
        }
        assert(self@.children[0] == self.children@[0]@);
        self.children[0].line.is_some()
    }
}

/// A folder with nothing in it.
pub open spec fn folder(seg: Seq<char>, path: Seq<char>) -> NodeView {
    NodeView { seg, path, children: Seq::empty(), line: None }
}

/// Are the children of a node lines?
pub open spec fn holds_lines(n: NodeView) -> bool {
    n.children.len() > 0 && n.children[0].line is Some
}

// ---------------------------------------------------------------------------
// Building
// ---------------------------------------------------------------------------

/// `s` with forward slashes for backslashes.
pub open spec fn slashed(s: Seq<char>) -> Seq<char> {
    s.map_values(|c: char| if c == '\\' { '/' } else { c })
}

/// `s` with forward slashes for backslashes.
pub(crate) fn forward_slashes(s: &str) -> (r: String)
    ensures
        r@ == slashed(s@),
{
    let c = chars_of(s);
    let mut out = String::new();
    let mut k: usize = 0;
    while k < c.len()
        invariant
            k <= c@.len(),
            out@ =~= slashed(c@).take(k as int),
        decreases c@.len() - k,
    {
        out.push(if c[k] == '\\' { '/' } else { c[k] });
        k += 1;
    }
    assert(slashed(c@).take(k as int) =~= slashed(c@));
    out
}

/// The segments of a path, split at slashes of either kind; empty ones are left
/// out.
pub open spec fn segments(file: Seq<char>) -> Seq<Seq<char>> {
    pieces(slashed(file), '/', 0).filter(|s: Seq<char>| s.len() > 0)
}

fn segments_of(file: &str) -> (r: Vec<String>)
    ensures
        views(r@) == segments(file@),
{
    let parts = split(&forward_slashes(file), '/');
    let ghost all = pieces(slashed(file@), '/', 0);
    let ghost pick = |s: Seq<char>| s.len() > 0;
    let mut out: Vec<String> = Vec::new();
    let mut k: usize = 0;
    proof {
        reveal(Seq::filter);
        assert(all.take(0).filter(pick) =~= Seq::empty());
    }
    while k < parts.len()
        invariant
            k <= parts@.len(),
            views(parts@) == all,
            pick == (|s: Seq<char>| s.len() > 0),
            views(out@) =~= all.take(k as int).filter(pick),
        decreases parts@.len() - k,
    {
        let ghost before = views(out@);
        assert(all[k as int] == parts@[k as int]@);
        proof {
            reveal(Seq::filter);
            assert(all.take(k + 1).drop_last() =~= all.take(k as int));
        }
        if !is_empty(&parts[k]) {
            out.push(parts[k].clone());
            assert(views(out@) =~= before.push(all[k as int]));
        }
        k += 1;
    }
    assert(all.take(k as int) =~= all);
    out
}

/// The path of a folder called `seg` in the folder at `path`.
pub open spec fn extended(path: Seq<char>, seg: Seq<char>) -> Seq<char> {
    if path.len() == 0 {
        seg
    } else {
        path.push('/') + seg
    }
}

/// The key of a line: its number and its index, padded so that keys sort in source
/// order.
pub open spec fn leaf_key(line: nat, index: nat) -> Seq<char> {
    padded(decimal(line), '0', 20).push('_') + padded(decimal(index), '0', 8)
}

/// The leaf of a line in the file at `path`.
pub open spec fn leaf(path: Seq<char>, key: Seq<char>, line: LineView) -> NodeView {
    NodeView { seg: key, path: path.push('\0') + key, children: Seq::empty(), line: Some(line) }
}

/// The first of `children[k..]` with the given segment, or the number of children.
pub open spec fn child_at(children: Seq<NodeView>, seg: Seq<char>, k: int) -> int
    decreases children.len() - k,
{
    if k < 0 || k >= children.len() {
        children.len() as int
    } else if children[k].seg == seg {
        k
    } else {
        child_at(children, seg, k + 1)
    }
}

/// Where a node called `seg` goes among the first `k` children: after those whose
/// name, in lower case, does not come after its own.
pub open spec fn display_position(children: Seq<NodeView>, seg: Seq<char>, k: int) -> int
    decreases k,
{
    if k > 0 && text_before(lowercase(seg), lowercase(children[k - 1].seg), 0) {
        display_position(children, seg, k - 1)
    } else {
        k
    }
}

/// The children with one more, in its place.
pub open spec fn with_child(children: Seq<NodeView>, c: NodeView) -> Seq<NodeView> {
    children.insert(display_position(children, c.seg, children.len() as int), c)
}

/// A node with a line woven in under the given segments. `path` is the path of the
/// node.
pub open spec fn woven(
    n: NodeView,
    segs: Seq<Seq<char>>,
    path: Seq<char>,
    key: Seq<char>,
    line: LineView,
) -> NodeView
    decreases segs.len(),
{
    if segs.len() == 0 {
        let k = child_at(n.children, key, 0);
        if k < n.children.len() {
            NodeView {
                children: n.children.update(
                    k,
                    NodeView { line: Some(line), ..n.children[k] },
                ),
                ..n
            }
        } else {
            NodeView { children: with_child(n.children, leaf(path, key, line)), ..n }
        }
    } else {
        let seg = segs[0];
        let inner = extended(path, seg);
        let k = child_at(n.children, seg, 0);
        if k < n.children.len() {
            NodeView {
                children: n.children.update(
                    k,
                    woven(n.children[k], segs.skip(1), inner, key, line),
                ),
                ..n
            }
        } else {
            NodeView {
                children: with_child(
                    n.children,
                    woven(folder(seg, inner), segs.skip(1), inner, key, line),
                ),
                ..n
            }
        }
    }
}

/// The tree of the first `k` lines.
pub open spec fn tree_of(lines: Seq<LineView>, k: int) -> NodeView
    decreases k,
{
    if k <= 0 {
        folder(Seq::empty(), Seq::empty())
    } else {
        let l = lines[k - 1];
        woven(
            tree_of(lines, k - 1),
            segments(l.file),
            Seq::empty(),
            leaf_key(l.line as nat, (k - 1) as nat),
            l,
        )
    }
}

fn find_child(children: &Vec<Node>, seg: &str) -> (r: usize)
    ensures
        r == child_at(views(children@), seg@, 0),
        r <= children@.len(),
{
    let mut k: usize = 0;
    while k < children.len() && !same_str(&children[k].seg, seg)
        invariant
            k <= children@.len(),
            child_at(views(children@), seg@, k as int) == child_at(views(children@), seg@, 0),
        decreases children@.len() - k,
    {
        assert(views(children@)[k as int] == children@[k as int]@);
        k += 1;
    }
    assert(k < children@.len() ==> views(children@)[k as int] == children@[k as int]@);
    k
}

fn insert_child(children: &mut Vec<Node>, c: Node)
    ensures
        views(final(children)@) == with_child(views(old(children)@), c@),
{
    let ghost all = views(children@);
    let name = to_lowercase(&c.seg);
    let mut k: usize = children.len();
    while k > 0 && comes_before(&name, &to_lowercase(&children[k - 1].seg))
        invariant
            k <= children@.len(),
            all == views(children@),
            name@ == lowercase(c@.seg),
            display_position(all, c@.seg, k as int) == display_position(
                all,
                c@.seg,
                all.len() as int,
            ),
        decreases k,
    {
        assert(all[k - 1] == children@[k - 1]@);
        k -= 1;
    }
    proof {
        if k > 0 {
            assert(all[k - 1] == children@[k - 1]@);
        }
    }
    let ghost cv = c@;
    children.insert(k, c);
    assert(views(children@) =~= all.insert(k as int, cv));
}

fn weave(n: &mut Node, segs: &[String], from: usize, path: &str, key: &str, line: &Line)
    requires
        from <= segs@.len(),
    ensures
        final(n)@ == woven(
            old(n)@,
            views(segs@).skip(from as int),
            path@,
            key@,
            line@,
        ),
    decreases segs@.len() - from,
{
    let ghost before = *n;
    let ghost rest = views(segs@).skip(from as int);
    proof {
        children_view(*n);
    }
    if from == segs.len() {
        let k = find_child(&n.children, key);
        if k < n.children.len() {
            let ghost kids = n.children@;
            let ghost old_child = n.children@[k as int];
            n.children[k].line = Some(line.clone());
            proof {
                children_view(*n);
                children_view(old_child);
                children_view(n.children@[k as int]);
                assert(n@.children =~= before@.children.update(
                    k as int,
                    NodeView { line: Some(line@), ..before@.children[k as int] },
                ));
            }
        } else {
            let mut path_of_leaf = path.to_owned();
            path_of_leaf.push('\0');
            path_of_leaf.append(key);
            let mut c = Node::new(key, &path_of_leaf);
            c.line = Some(line.clone());
            proof {
                children_view(c);
                assert(c@.children =~= Seq::empty());
                assert(c@ == leaf(path@, key@, line@));
            }
            insert_child(&mut n.children, c);
            proof {
                children_view(*n);
            }
        }
    } else {
        let seg = &segs[from];
        assert(rest[0] == seg@);
        assert(rest.skip(1) =~= views(segs@).skip(from + 1));
        let inner = if is_empty(path) {
            seg.clone()
        } else {
            let mut inner = path.to_owned();
            inner.push('/');
            inner.append(seg);
            inner
        };
        assert(inner@ == extended(path@, seg@));
        let k = find_child(&n.children, seg);
        if k < n.children.len() {
            assert(before@.children[k as int] == n.children@[k as int]@);
            weave(&mut n.children[k], segs, from + 1, &inner, key, line);
            proof {
                children_view(*n);
                assert(n@.children =~= before@.children.update(
                    k as int,
                    woven(before@.children[k as int], rest.skip(1), inner@, key@, line@),
                ));
            }
        } else {
            let mut c = Node::new(seg, &inner);
            weave(&mut c, segs, from + 1, &inner, key, line);
            insert_child(&mut n.children, c);
            proof {
                children_view(*n);
                woven_keeps_seg(folder(seg@, inner@), rest.skip(1), inner@, key@, line@);
            }
        }
    }
}

proof fn woven_keeps_seg(
    n: NodeView,
    segs: Seq<Seq<char>>,
    path: Seq<char>,
    key: Seq<char>,
    line: LineView,
)
    ensures
        woven(n, segs, path, key, line).seg == n.seg,
        woven(n, segs, path, key, line).path == n.path,
        woven(n, segs, path, key, line).line == n.line,
{
}

/// Weaves every line into a tree.
pub fn build_tree(lines: &[Line]) -> (r: Node)
    ensures
        r@ == tree_of(views(lines@), lines@.len() as int),
{
    let ghost all = views(lines@);
    let mut root = Node::new("", "");
    proof {
        reveal_strlit("");
        assert(""@ =~= Seq::<char>::empty());
    }
    let mut k: usize = 0;
    while k < lines.len()
        invariant
            k <= lines@.len(),
            all == views(lines@),
            ""@ == Seq::<char>::empty(),
            root@ == tree_of(all, k as int),
        decreases lines@.len() - k,
    {
        let l = &lines[k];
        assert(all[k as int] == l@);
        let segs = segments_of(&l.file);
        let mut key = pad_left(&decimal_of(l.line), '0', 20);
        key.push('_');
        key.append(&pad_left(&decimal_of(k), '0', 8));
        assert(views(segs@).skip(0) =~= views(segs@));
        weave(&mut root, &segs, 0, "", &key, l);
        k += 1;
    }
    root
}

// ---------------------------------------------------------------------------
// Rows
// ---------------------------------------------------------------------------

/// One row of the screen: a folder or a line.
#[derive(Debug)]
pub struct Row {
    pub id: String,
    pub depth: usize,
    pub is_folder: bool,
    pub seg: String,
    pub is_file_node: bool,
    pub child_count: usize,
    pub expanded: bool,
    /// Sequential jump number across the whole tree, of lines only.
    pub number: Option<usize>,
    pub line: Option<Line>,
}

/// The mathematical value of a [`Row`].
pub struct RowView {
    pub id: Seq<char>,
    pub depth: usize,
    pub is_folder: bool,
    pub seg: Seq<char>,
    pub is_file_node: bool,
    pub child_count: usize,
    pub expanded: bool,
    pub number: Option<usize>,
    pub line: Option<LineView>,
}

impl View for Row {
    type V = RowView;

    open spec fn view(&self) -> RowView {
        RowView {
            id: self.id@,
            depth: self.depth,
            is_folder: self.is_folder,
            seg: self.seg@,
            is_file_node: self.is_file_node,
            child_count: self.child_count,
            expanded: self.expanded,
            number: self.number,
            line: opt_view(self.line),
        }
    }
}

/// The row of a line, before rows are numbered.
pub open spec fn line_row(c: NodeView, depth: int) -> RowView {
    RowView {
        id: "L:"@ + c.path,
        depth: depth as usize,
        is_folder: false,
        seg: Seq::empty(),
        is_file_node: false,
        child_count: 0,
        expanded: false,
        number: None,
        line: c.line,
    }
}

/// The row of a folder.
pub open spec fn folder_row(c: NodeView, depth: int, open: bool) -> RowView {
    RowView {
        id: "F:"@ + c.path,
        depth: depth as usize,
        is_folder: true,
        seg: c.seg,
        is_file_node: holds_lines(c),
        child_count: c.children.len() as usize,
        expanded: open,
        number: None,
        line: None,
    }
}

/// The rows of a node at `depth` and, if it is an open folder, of what is in it.
pub open spec fn node_rows(c: NodeView, depth: int, expanded: Set<Seq<char>>) -> Seq<RowView>
    decreases c, 1int, 0int,
{
    if c.line is Some {
        seq![line_row(c, depth)]
    } else if expanded.contains(c.path) && depth < usize::MAX {
        seq![folder_row(c, depth, true)] + rows_in(c, depth + 1, expanded, c.children.len() as int)
    } else {
        seq![folder_row(c, depth, expanded.contains(c.path))]
    }
}

/// The rows of the first `k` children of a node, which are at `depth`.
pub open spec fn rows_in(n: NodeView, depth: int, expanded: Set<Seq<char>>, k: int) -> Seq<RowView>
    decreases n, 0int, k,
{
    if k <= 0 || k > n.children.len() {
        Seq::empty()
    } else {
        rows_in(n, depth, expanded, k - 1) + node_rows(n.children[k - 1], depth, expanded)
    }
}

/// The number of lines among the first `k` rows.
pub open spec fn lines_among(rows: Seq<RowView>, k: int) -> int
    decreases k,
{
    if k <= 0 {
        0
    } else {
        lines_among(rows, k - 1) + (if rows[k - 1].is_folder {
            0int
        } else {
            1
        })
    }
}

/// The rows with their lines numbered from one.
pub open spec fn numbered(rows: Seq<RowView>) -> Seq<RowView> {
    Seq::new(
        rows.len(),
        |i: int|
            if rows[i].is_folder {
                rows[i]
            } else {
                RowView { number: Some(lines_among(rows, i + 1) as usize), ..rows[i] }
            },
    )
}

/// The rows of a tree. A folder is open when its path is in `expanded`.
pub open spec fn visible(root: NodeView, expanded: Set<Seq<char>>) -> Seq<RowView> {
    numbered(rows_in(root, 0, expanded, root.children.len() as int))
}

fn visit(node: &Node, depth: usize, expanded: &NameSet) -> (rows: Vec<Row>)
    ensures
        views(rows@) == rows_in(
            node@,
            depth as int,
            expanded@,
            node@.children.len() as int,
        ),
    decreases node,
{
    let mut rows: Vec<Row> = Vec::new();
    let mut k: usize = 0;
    proof {
        children_view(*node);
    }
    assert(views(rows@) =~= Seq::empty());
    while k < node.children.len()
        invariant
            k <= node.children@.len(),
            node@.children == views(node.children@),
            views(rows@) == rows_in(node@, depth as int, expanded@, k as int),
        decreases node.children@.len() - k,
    {
        let child = &node.children[k];
        let ghost before = views(rows@);
        proof {
            children_view(*child);
            assert(node@.children[k as int] == child@);
            assert(decreases_to!(*node => node.children@[k as int]));
        }
        if let Some(line) = &child.line {
            let row = Row {
                id: concat("L:", &child.path),
                depth,
                is_folder: false,
                seg: String::new(),
                is_file_node: false,
                child_count: 0,
                expanded: false,
                number: None,
                line: Some(line.clone()),
            };
            assert(row@.seg =~= Seq::empty());
            assert(row@ == line_row(child@, depth as int));
            rows.push(row);
            assert(node_rows(child@, depth as int, expanded@) == seq![row@]);
            assert(views(rows@) =~= before + seq![row@]);
        } else {
            let open = expanded.contains(&child.path);
            let row = Row {
                id: concat("F:", &child.path),
                depth,
                is_folder: true,
                seg: child.seg.clone(),
                is_file_node: child.is_file_node(),
                child_count: child.children.len(),
                expanded: open,
                number: None,
                line: None,
            };
            assert(row@ == folder_row(child@, depth as int, open));
            rows.push(row);
            assert(views(rows@) =~= before + seq![row@]);
            if open && depth < usize::MAX {
                let mut inner = visit(child, depth + 1, expanded);
                let ghost iv = views(inner@);
                rows.append(&mut inner);
                assert(node_rows(child@, depth as int, expanded@) == seq![row@] + iv);
                assert(views(rows@) =~= before + (seq![row@] + iv));
            } else {
                assert(node_rows(child@, depth as int, expanded@) == seq![row@]);
            }
        }
        k += 1;
        assert(rows_in(node@, depth as int, expanded@, k as int) == rows_in(
            node@,
            depth as int,
            expanded@,
            k - 1,
        ) + node_rows(node@.children[k - 1], depth as int, expanded@));
    }
    rows
}

fn renumber(rows: &mut Vec<Row>)
    ensures
        views(final(rows)@) == numbered(views(old(rows)@)),
{
    let ghost all = views(rows@);
    let mut n: usize = 0;
    let mut k: usize = 0;
    while k < rows.len()
        invariant
            k <= rows@.len(),
            rows@.len() == all.len(),
            n <= k,
            n == lines_among(all, k as int),
            forall|i: int|
                0 <= i < rows@.len() ==> (#[trigger] rows@[i])@ == (if i < k {
                    numbered(all)[i]
                } else {
                    all[i]
                }),
        decreases rows@.len() - k,
    {
        assert(rows@[k as int]@ == all[k as int]);
        if !rows[k].is_folder {
            n += 1;
            rows[k].number = Some(n);
        }
        k += 1;
    }
    assert(views(rows@) =~= numbered(all));
}

/// Flattens the tree into rows in display order.
pub fn build_visible(root: &Node, expanded: &NameSet) -> (rows: Vec<Row>)
    ensures
        views(rows@) == visible(root@, expanded@),
{
    let mut rows = visit(root, 0, expanded);
    renumber(&mut rows);
    rows
}

/// The node that the segments from `i` on lead to from `n`.
pub open spec fn node_under(n: NodeView, segs: Seq<Seq<char>>, i: int) -> Option<NodeView>
    decreases segs.len() - i,
{
    if i < 0 || i >= segs.len() {
        Some(n)
    } else {
        let k = child_at(n.children, segs[i], 0);
        if k < n.children.len() {
            node_under(n.children[k], segs, i + 1)
        } else {
            None
        }
    }
}

/// The node at a slash-separated path.
pub open spec fn node_at_path(root: NodeView, path: Seq<char>) -> Option<NodeView> {
    node_under(root, pieces(path, '/', 0), 0)
}

/// Finds the node at a slash-separated path.
pub fn find_node<'a>(root: &'a Node, path: &str) -> (r: Option<&'a Node>)
    ensures
        match r {
            Some(n) => node_at_path(root@, path@) == Some(n@),
            None => node_at_path(root@, path@) is None,
        },
{
    let segs = split(path, '/');
    let ghost ss = pieces(path@, '/', 0);
    let mut node: &'a Node = root;
    let mut i: usize = 0;
    while i < segs.len()
        invariant
            i <= segs@.len(),
            views(segs@) == ss,
            ss == pieces(path@, '/', 0),
            node_under(node@, ss, i as int) == node_under(root@, ss, 0),
        decreases segs@.len() - i,
    {
        assert(ss[i as int] == segs@[i as int]@);
        proof {
            children_view(*node);
        }
        let k = find_child(&node.children, &segs[i]);
        if k >= node.children.len() {
            return None;
        }
        assert(node@.children[k as int] == node.children@[k as int]@);
        node = &node.children[k];
        i += 1;
    }
    assert(ss.len() == segs@.len());
    Some(node)
}

/// The path in the identifier of a row: what stands behind its mark, `F:` or `L:`.
pub open spec fn path_of_id(id: Seq<char>) -> Seq<char> {
    if id.len() < 2 {
        Seq::empty()
    } else {
        id.skip(2)
    }
}

/// The path in the identifier of a row.
pub(crate) fn path_in_id(id: &str) -> (r: String)
    ensures
        r@ == path_of_id(id@),
{
    let c = chars_of(id);
    let from: usize = if c.len() < 2 {
        c.len()
    } else {
        2
    };
    assert(c@.subrange(from as int, c@.len() as int) =~= path_of_id(c@));
    crate::text::substring_of(&c, from, c.len())
}

/// The rows after the folder in row `i` is opened in place.
pub open spec fn opened_rows(
    rows: Seq<RowView>,
    i: int,
    root: NodeView,
    expanded: Set<Seq<char>>,
) -> Seq<RowView> {
    let row = RowView { expanded: true, ..rows[i] };
    let inside = match node_at_path(root, path_of_id(row.id)) {
        Some(n) => if row.depth < usize::MAX {
            rows_in(n, row.depth + 1, expanded, n.children.len() as int)
        } else {
            Seq::empty()
        },
        None => Seq::empty(),
    };
    numbered(rows.take(i) + seq![row] + inside + rows.skip(i + 1))
}

/// Where the rows deeper than `depth` that start at `i` end.
pub open spec fn run_end(rows: Seq<RowView>, depth: int, i: int) -> int
    decreases rows.len() - i,
{
    if 0 <= i < rows.len() && rows[i].depth > depth {
        run_end(rows, depth, i + 1)
    } else {
        i
    }
}

/// The rows after the folder in row `i` is closed in place.
pub open spec fn closed_rows(rows: Seq<RowView>, i: int) -> Seq<RowView> {
    let row = RowView { expanded: false, ..rows[i] };
    numbered(rows.take(i) + seq![row] + rows.skip(run_end(rows, row.depth as int, i + 1)))
}

/// Opens the folder in row `index` in place. `expanded` holds its path already.
pub fn splice_expand(rows: &mut Vec<Row>, index: usize, root: &Node, expanded: &NameSet)
    requires
        index < old(rows)@.len(),
    ensures
        views(final(rows)@) == opened_rows(
            views(old(rows)@),
            index as int,
            root@,
            expanded@,
        ),
{
    let ghost all = views(rows@);
    assert(all[index as int] == rows@[index as int]@);
    let count = rows.len();
    assert(index < count);
    let path = path_in_id(&rows[index].id);
    let depth = rows[index].depth;
    rows[index].expanded = true;
    let ghost row = RowView { expanded: true, ..all[index as int] };
    assert(views(rows@) =~= all.update(index as int, row));
    let mut tail = rows.split_off(index + 1);
    let ghost head = all.take(index as int) + seq![row];
    assert(views(rows@) =~= head);
    assert(views(tail@) =~= all.skip(index + 1));
    let ghost inside = Seq::<RowView>::empty();
    if let Some(node) = find_node(root, &path) {
        if depth < usize::MAX {
            let mut inner = visit(node, depth + 1, expanded);
            proof {
                inside = views(inner@);
            }
            rows.append(&mut inner);
        }
    }
    assert(views(rows@) =~= head + inside);
    rows.append(&mut tail);
    assert(views(rows@) =~= all.take(index as int) + seq![row] + inside + all.skip(index + 1));
    renumber(rows);
}

/// Closes the folder in row `index` in place: drops the deeper rows that follow.
pub fn splice_collapse(rows: &mut Vec<Row>, index: usize)
    requires
        index < old(rows)@.len(),
    ensures
        views(final(rows)@) == closed_rows(views(old(rows)@), index as int),
{
    let ghost all = views(rows@);
    assert(all[index as int] == rows@[index as int]@);
    let count = rows.len();
    assert(index < count);
    let depth = rows[index].depth;
    let mut end: usize = index + 1;
    while end < rows.len() && rows[end].depth > depth
        invariant
            index < end <= rows@.len(),
            all == views(rows@),
            depth == all[index as int].depth,
            run_end(all, depth as int, end as int) == run_end(all, depth as int, index + 1),
        decreases rows@.len() - end,
    {
        assert(all[end as int] == rows@[end as int]@);
        end += 1;
    }
    proof {
        if end < rows@.len() {
            assert(all[end as int] == rows@[end as int]@);
        }
    }
    rows[index].expanded = false;
    let ghost row = RowView { expanded: false, ..all[index as int] };
    assert(views(rows@) =~= all.update(index as int, row));
    let mut tail = rows.split_off(end);
    rows.truncate(index + 1);
    assert(views(rows@) =~= all.take(index as int) + seq![row]);
    assert(views(tail@) =~= all.skip(end as int));
    rows.append(&mut tail);
    assert(views(rows@) =~= all.take(index as int) + seq![row] + all.skip(end as int));
    renumber(rows);
}

/// The paths of the folders under the first `k` children of a node.
pub open spec fn folder_paths(n: NodeView, k: int) -> Set<Seq<char>>
    decreases n, k,
{
    if k <= 0 || k > n.children.len() {
        Set::empty()
    } else {
        let c = n.children[k - 1];
        let before = folder_paths(n, k - 1);
        if c.line is None {
            before.insert(c.path).union(folder_paths(c, c.children.len() as int))
        } else {
            before
        }
    }
}

/// Adds the path of every directory and file in the tree.
pub fn all_folder_paths(node: &Node, out: &mut NameSet)
    ensures
        final(out)@ == old(out)@.union(folder_paths(node@, node@.children.len() as int)),
    decreases node,
{
    let ghost start = out@;
    let mut k: usize = 0;
    proof {
        children_view(*node);
    }
    assert(start.union(Set::empty()) =~= start);
    while k < node.children.len()
        invariant
            k <= node.children@.len(),
            node@.children == views(node.children@),
            out@ =~= start.union(folder_paths(node@, k as int)),
        decreases node.children@.len() - k,
    {
        let child = &node.children[k];
        proof {
            children_view(*child);
            assert(node@.children[k as int] == child@);
            assert(decreases_to!(*node => node.children@[k as int]));
        }
        if child.line.is_none() {
            let _ = out.insert(&child.path);
            all_folder_paths(child, out);
        }
        k += 1;
    }
}

} // verus!
